//! The mathematical model of the request decoder.
//!
//! Every executable parsing function in this crate is specified against the
//! functions here: a chunk of bytes is split into lines, each line moves the
//! parse state forward, and a whole chunk is a fold of those moves.  Header
//! text is modelled one character per byte (ISO-8859-1), so decoding is total
//! and byte positions are preserved exactly.

use vstd::prelude::*;

use crate::server::http::{ContentType, RequestType, Status};

verus! {

// ---------------------------------------------------------------------------
// Text primitives
// ---------------------------------------------------------------------------

/// One character per raw byte: header text is read as ISO-8859-1.
pub open spec fn decoded(bytes: Seq<u8>) -> Seq<char> {
    bytes.map(|i: int, b: u8| b as char)
}

/// The low byte of each character; the exact inverse of [`decoded`] on
/// characters below 256, and in particular on ASCII text.
pub open spec fn encoded(text: Seq<char>) -> Seq<u8> {
    text.map(|i: int, c: char| c as u8)
}

/// The whitespace that header values are trimmed of.
pub open spec fn is_ws(c: char) -> bool {
    c == ' ' || c == '\t' || c == '\r' || c == '\n'
}

pub open spec fn is_digit(c: char) -> bool {
    '0' <= c && c <= '9'
}

pub open spec fn digit_value(c: char) -> u8 {
    ((c as u32) - 48) as u8
}

/// The index of the first occurrence of `x` in `s`, if any.
pub open spec fn spec_find<T>(s: Seq<T>, x: T) -> Option<int>
    decreases s.len(),
{
    if s.len() == 0 {
        None
    } else if s[0] == x {
        Some(0)
    } else {
        match spec_find(s.drop_first(), x) {
            None => None,
            Some(i) => Some(i + 1),
        }
    }
}

pub open spec fn starts_with<T>(s: Seq<T>, prefix: Seq<T>) -> bool {
    prefix.len() <= s.len() && s.subrange(0, prefix.len() as int) == prefix
}

pub open spec fn ends_with<T>(s: Seq<T>, suffix: Seq<T>) -> bool {
    suffix.len() <= s.len() && s.subrange(s.len() - suffix.len(), s.len() as int) == suffix
}

pub open spec fn spec_trim_front(s: Seq<char>) -> Seq<char>
    decreases s.len(),
{
    if s.len() == 0 {
        s
    } else if is_ws(s[0]) {
        spec_trim_front(s.drop_first())
    } else {
        s
    }
}

pub open spec fn spec_trim_back(s: Seq<char>) -> Seq<char>
    decreases s.len(),
{
    if s.len() == 0 {
        s
    } else if is_ws(s.last()) {
        spec_trim_back(s.drop_last())
    } else {
        s
    }
}

/// `s` without leading and trailing whitespace.
pub open spec fn spec_trim(s: Seq<char>) -> Seq<char> {
    spec_trim_back(spec_trim_front(s))
}

/// `s` split on `sep`; always at least one segment, and the separator itself
/// appears in none of them.
pub open spec fn spec_split(s: Seq<char>, sep: char) -> Seq<Seq<char>>
    decreases s.len(),
{
    match spec_find(s, sep) {
        None => seq![s],
        Some(i) => {
            if 0 <= i < s.len() {
                seq![s.subrange(0, i)] + spec_split(s.subrange(i + 1, s.len() as int), sep)
            } else {
                seq![s]
            }
        },
    }
}

/// The line terminator, as bytes.
pub open spec fn spec_crlf() -> Seq<u8> {
    seq![13u8, 10u8]
}

/// A chunk split into lines, each line keeping its terminating `\n` so that
/// payload bytes can be reassembled exactly.  The final line may be
/// unterminated.
pub open spec fn spec_lines(s: Seq<u8>) -> Seq<Seq<u8>>
    decreases s.len(),
{
    if s.len() == 0 {
        Seq::empty()
    } else {
        match spec_find(s, 10u8) {
            None => seq![s],
            Some(i) => {
                if 0 <= i < s.len() {
                    seq![s.subrange(0, i + 1)] + spec_lines(s.subrange(i + 1, s.len() as int))
                } else {
                    seq![s]
                }
            },
        }
    }
}

/// The index of the last occurrence of `x` in `s`, if any.
pub open spec fn spec_rfind<T>(s: Seq<T>, x: T) -> Option<int>
    decreases s.len(),
{
    if s.len() == 0 {
        None
    } else if s.last() == x {
        Some(s.len() - 1)
    } else {
        spec_rfind(s.drop_last(), x)
    }
}

/// What [`spec_rfind`] returns: the last index holding `x`, if any.
pub proof fn lemma_spec_rfind<T>(s: Seq<T>, x: T)
    ensures
        match spec_rfind(s, x) {
            Some(i) => 0 <= i < s.len() && s[i] == x && (forall|j: int|
                i < j < s.len() ==> s[j] != x),
            None => forall|j: int| 0 <= j < s.len() ==> s[j] != x,
        },
    decreases s.len(),
{
    if s.len() > 0 && !(s.last() == x) {
        lemma_spec_rfind(s.drop_last(), x);
        match spec_rfind(s.drop_last(), x) {
            Some(i) => {
                assert(s[i] == s.drop_last()[i]);
                assert forall|j: int| i < j < s.len() implies s[j] != x by {
                    if j < s.len() - 1 {
                        assert(s[j] == s.drop_last()[j]);
                    }
                }
            },
            None => {
                assert forall|j: int| 0 <= j < s.len() implies s[j] != x by {
                    if j < s.len() - 1 {
                        assert(s[j] == s.drop_last()[j]);
                    }
                }
            },
        }
    }
}

/// What [`spec_find`] returns: the first index holding `x`, if any.
pub proof fn lemma_spec_find<T>(s: Seq<T>, x: T)
    ensures
        match spec_find(s, x) {
            Some(i) => 0 <= i < s.len() && s[i] == x && (forall|j: int|
                0 <= j < i ==> s[j] != x),
            None => forall|j: int| 0 <= j < s.len() ==> s[j] != x,
        },
    decreases s.len(),
{
    if s.len() > 0 && !(s[0] == x) {
        lemma_spec_find(s.drop_first(), x);
        match spec_find(s.drop_first(), x) {
            Some(i) => {
                assert(s[i + 1] == s.drop_first()[i]);
                assert forall|j: int| 0 <= j < i + 1 implies s[j] != x by {
                    if j > 0 {
                        assert(s[j] == s.drop_first()[j - 1]);
                    }
                }
            },
            None => {
                assert forall|j: int| 0 <= j < s.len() implies s[j] != x by {
                    if j > 0 {
                        assert(s[j] == s.drop_first()[j - 1]);
                    }
                }
            },
        }
    }
}

/// [`spec_trim_front`] removes exactly the whitespace prefix: if the first
/// `k` characters are whitespace and the next one is not, the result is the
/// rest of the sequence.
pub proof fn lemma_trim_front_exact(s: Seq<char>, k: int)
    requires
        0 <= k <= s.len(),
        forall|m: int| 0 <= m < k ==> is_ws(s[m]),
        k == s.len() || !is_ws(s[k]),
    ensures
        spec_trim_front(s) == s.subrange(k, s.len() as int),
    decreases k,
{
    if k == 0 {
        assert(s.subrange(0, s.len() as int) =~= s);
    } else {
        assert(is_ws(s[0]));
        assert forall|m: int| 0 <= m < k - 1 implies is_ws(s.drop_first()[m]) by {
            assert(s.drop_first()[m] == s[m + 1]);
        }
        if k < s.len() {
            assert(s.drop_first()[k - 1] == s[k]);
        }
        lemma_trim_front_exact(s.drop_first(), k - 1);
        assert(s.drop_first().subrange(k - 1, s.drop_first().len() as int) =~= s.subrange(
            k,
            s.len() as int,
        ));
    }
}

/// [`spec_trim_back`] removes exactly the whitespace suffix.
pub proof fn lemma_trim_back_exact(s: Seq<char>, k: int)
    requires
        0 <= k <= s.len(),
        forall|m: int| k <= m < s.len() ==> is_ws(s[m]),
        k == 0 || !is_ws(s[k - 1]),
    ensures
        spec_trim_back(s) == s.subrange(0, k),
    decreases s.len() - k,
{
    if k == s.len() {
        assert(s.subrange(0, s.len() as int) =~= s);
    } else {
        assert(is_ws(s.last()));
        assert forall|m: int| k <= m < s.drop_last().len() implies is_ws(s.drop_last()[m]) by {
            assert(s.drop_last()[m] == s[m]);
        }
        lemma_trim_back_exact(s.drop_last(), k);
        assert(s.drop_last().subrange(0, k) =~= s.subrange(0, k));
    }
}

/// One step of line splitting: if `end` is the position just after the first
/// `\n` at or after `pos` (or the end of the chunk when there is none), the
/// lines of the tail from `pos` are that line followed by the lines of the
/// tail from `end`.
pub proof fn lemma_lines_step(s: Seq<u8>, pos: int, end: int)
    requires
        0 <= pos < end <= s.len(),
        forall|k: int| pos <= k < end - 1 ==> s[k] != 10u8,
        s[end - 1] == 10u8 || end == s.len(),
    ensures
        spec_lines(s.skip(pos)) == seq![s.subrange(pos, end)] + spec_lines(s.skip(end)),
{
    let t = s.skip(pos);
    lemma_spec_find(t, 10u8);
    if s[end - 1] == 10u8 {
        assert(t[end - 1 - pos] == s[end - 1]);
        assert forall|k: int| 0 <= k < end - 1 - pos implies t[k] != 10u8 by {
            assert(t[k] == s[k + pos]);
        }
        match spec_find(t, 10u8) {
            None => {
                assert(t[end - 1 - pos] != 10u8);
            },
            Some(i) => {
                if i < end - 1 - pos {
                    assert(t[i] != 10u8);
                } else if i > end - 1 - pos {
                    assert(t[end - 1 - pos] != 10u8);
                }
                assert(i == end - 1 - pos);
                assert(t.subrange(0, i + 1) =~= s.subrange(pos, end));
                assert(t.subrange(i + 1, t.len() as int) =~= s.skip(end));
            },
        }
    } else {
        assert(end == s.len());
        assert forall|k: int| 0 <= k < t.len() implies t[k] != 10u8 by {
            assert(t[k] == s[k + pos]);
        }
        match spec_find(t, 10u8) {
            None => {
                assert(t =~= s.subrange(pos, end));
                assert(s.skip(end) =~= Seq::<u8>::empty());
                assert(spec_lines(s.skip(end)) =~= Seq::<Seq<u8>>::empty());
                assert(seq![s.subrange(pos, end)] + spec_lines(s.skip(end)) =~= seq![t]);
            },
            Some(i) => {
                assert(t[i] != 10u8);
            },
        }
    }
}

// ---------------------------------------------------------------------------
// The model of the decoded data
// ---------------------------------------------------------------------------

/// Model of a `name`/`value` pair.
#[verifier::ext_equal]
pub struct SpecFieldSimple {
    pub name: Seq<char>,
    pub body: Seq<char>,
}

/// Model of a header field: its own pair plus `;`-separated attributes.
#[verifier::ext_equal]
pub struct SpecField {
    pub this: SpecFieldSimple,
    pub children: Seq<SpecFieldSimple>,
}

/// Model of a request line.
#[verifier::ext_equal]
pub struct SpecHeader {
    pub request: RequestType,
    pub body: Seq<char>,
    pub version_major: u8,
    pub version_minor: u8,
}

/// Model of one multipart body segment.
#[verifier::ext_equal]
pub struct SpecDataPart {
    pub fields: Seq<SpecField>,
    pub data: Seq<u8>,
}

/// Model of a decoded request.
#[verifier::ext_equal]
pub struct SpecRequest {
    pub header: SpecHeader,
    pub fields: Seq<SpecField>,
    pub data: Seq<SpecDataPart>,
}

/// Model of the carry state of an unfinished multipart decode.
#[verifier::ext_equal]
pub struct SpecRequestState {
    pub boundary: Option<Seq<char>>,
    pub is_data_part: bool,
    pub is_data_part_header: bool,
    pub data: Seq<SpecDataPart>,
}

/// Model of the protocol errors.
pub enum SpecRequestError {
    HeaderMissing,
    RequestTypeMissing,
    UnknownRequestType(Seq<char>),
    BodyMissing,
    VersionMissing,
    MalformedVersion,
    InvalidMajor,
    UnsupportedMajor,
    InvalidMinor,
    FieldError(Seq<char>),
    MultipartNoBoundary,
}

/// The state a fresh request starts from.
pub open spec fn spec_state_default() -> SpecRequestState {
    SpecRequestState {
        boundary: None,
        is_data_part: false,
        is_data_part_header: false,
        data: Seq::empty(),
    }
}

/// The state invariant: the mini-header flag only holds inside a part, and
/// being inside a part means one is open.
pub open spec fn state_wf(st: SpecRequestState) -> bool {
    &&& st.is_data_part_header ==> st.is_data_part
    &&& st.is_data_part ==> st.data.len() > 0
}

// ---------------------------------------------------------------------------
// Field parsing
// ---------------------------------------------------------------------------

/// Split `text` at the first `:` (or, failing that, the first `=`); trim the
/// value and strip one pair of surrounding quotes.  `None` when neither
/// delimiter is present.
pub open spec fn spec_parse_arg(text: Seq<char>) -> Option<SpecFieldSimple> {
    let delim = match spec_find(text, ':') {
        Some(i) => Some(i),
        None => spec_find(text, '='),
    };
    match delim {
        None => None,
        Some(i) => {
            let name = text.subrange(0, i);
            let trimmed = spec_trim(text.subrange(i + 1, text.len() as int));
            let body = if trimmed.len() >= 2 && trimmed[0] == '"' && trimmed.last() == '"' {
                trimmed.subrange(1, trimmed.len() - 1)
            } else {
                trimmed
            };
            Some(SpecFieldSimple { name, body })
        },
    }
}

/// Each attribute segment parsed by [`spec_parse_arg`]; the first failing
/// segment is the error.
pub open spec fn spec_parse_children(segs: Seq<Seq<char>>) -> Result<
    Seq<SpecFieldSimple>,
    SpecRequestError,
>
    decreases segs.len(),
{
    if segs.len() == 0 {
        Ok(Seq::empty())
    } else {
        match spec_parse_arg(segs[0]) {
            None => Err(SpecRequestError::FieldError(segs[0])),
            Some(f) => match spec_parse_children(segs.drop_first()) {
                Err(e) => Err(e),
                Ok(rest) => Ok(seq![f] + rest),
            },
        }
    }
}

/// [`spec_split`] never yields an empty segment list.
pub proof fn lemma_split_len(s: Seq<char>, sep: char)
    ensures
        spec_split(s, sep).len() >= 1,
{
    match spec_find(s, sep) {
        None => {},
        Some(i) => {},
    }
}

/// [`spec_parse_children`] over a concatenation: the left segments parse
/// first, and the results concatenate.
pub proof fn lemma_parse_children_concat(a: Seq<Seq<char>>, b: Seq<Seq<char>>)
    ensures
        spec_parse_children(a + b) == (match spec_parse_children(a) {
            Err(e) => Err::<Seq<SpecFieldSimple>, SpecRequestError>(e),
            Ok(ca) => match spec_parse_children(b) {
                Err(e) => Err(e),
                Ok(cb) => Ok(ca + cb),
            },
        }),
    decreases a.len(),
{
    if a.len() == 0 {
        assert(a + b =~= b);
        match spec_parse_children(b) {
            Err(e) => {},
            Ok(cb) => {
                assert(Seq::<SpecFieldSimple>::empty() + cb =~= cb);
            },
        }
    } else {
        let rest = a.drop_first();
        assert((a + b)[0] == a[0]);
        assert((a + b).drop_first() =~= rest + b);
        lemma_parse_children_concat(rest, b);
        match spec_parse_arg(a[0]) {
            None => {},
            Some(f) => {
                match spec_parse_children(rest) {
                    Err(e) => {},
                    Ok(ca) => {
                        match spec_parse_children(b) {
                            Err(e) => {},
                            Ok(cb) => {
                                assert(seq![f] + (ca + cb) =~= (seq![f] + ca) + cb);
                            },
                        }
                    },
                }
            },
        }
    }
}

/// A field value split into `;`-separated segments, each trimmed.
pub open spec fn trimmed_segments(body: Seq<char>) -> Seq<Seq<char>> {
    spec_split(body, ';').map(|i: int, seg: Seq<char>| spec_trim(seg))
}

/// A whole header line parsed into a [`SpecField`]: the pair itself, then the
/// value split into `;`-separated attributes (never for `User-Agent`).  A
/// `Content-Type` whose value starts with `multipart` installs its first
/// attribute as the multipart boundary; a missing attribute there is a hard
/// error.
pub open spec fn spec_parse_normal(st: SpecRequestState, line: Seq<u8>) -> Result<
    (SpecField, SpecRequestState),
    SpecRequestError,
> {
    let text = decoded(line);
    match spec_parse_arg(text) {
        None => Err(SpecRequestError::FieldError(text)),
        Some(simple) => {
            if simple.name == "User-Agent"@ {
                Ok((SpecField { this: simple, children: Seq::empty() }, st))
            } else {
                let segs = trimmed_segments(simple.body);
                let body = segs[0];
                match spec_parse_children(segs.drop_first()) {
                    Err(e) => Err(e),
                    Ok(children) => {
                        let field = SpecField {
                            this: SpecFieldSimple { name: simple.name, body },
                            children,
                        };
                        if simple.name == "Content-Type"@ && starts_with(body, "multipart"@) {
                            if children.len() == 0 {
                                Err(SpecRequestError::MultipartNoBoundary)
                            } else {
                                Ok((
                                    field,
                                    SpecRequestState {
                                        boundary: Some(children[0].body),
                                        is_data_part: st.is_data_part,
                                        is_data_part_header: st.is_data_part_header,
                                        data: st.data,
                                    },
                                ))
                            }
                        } else {
                            Ok((field, st))
                        }
                    },
                }
            }
        },
    }
}

// ---------------------------------------------------------------------------
// The line classifier
// ---------------------------------------------------------------------------

/// Does `line` read `--` followed by exactly the current boundary?
pub open spec fn is_boundary_line(st: SpecRequestState, line: Seq<u8>) -> bool {
    match st.boundary {
        None => false,
        Some(b) => {
            &&& line.len() >= 2
            &&& line[0] == 45u8
            &&& line[1] == 45u8
            &&& line.len() - 2 >= b.len()
            &&& decoded(line.subrange(2, 2 + b.len() as int)) == b
        },
    }
}

/// A part's payload with one trailing CRLF removed, as happens when the next
/// boundary line is seen.
pub open spec fn trim_part_crlf(p: SpecDataPart) -> SpecDataPart {
    if ends_with(p.data, spec_crlf()) {
        SpecDataPart { fields: p.fields, data: p.data.subrange(0, p.data.len() - 2) }
    } else {
        p
    }
}

pub open spec fn trim_last_crlf(st: SpecRequestState) -> SpecRequestState {
    if st.data.len() > 0 {
        SpecRequestState {
            boundary: st.boundary,
            is_data_part: st.is_data_part,
            is_data_part_header: st.is_data_part_header,
            data: st.data.update(st.data.len() - 1, trim_part_crlf(st.data.last())),
        }
    } else {
        st
    }
}

pub open spec fn push_field_to_last(st: SpecRequestState, field: SpecField) -> SpecRequestState {
    if st.data.len() > 0 {
        let last = st.data.last();
        SpecRequestState {
            boundary: st.boundary,
            is_data_part: st.is_data_part,
            is_data_part_header: st.is_data_part_header,
            data: st.data.update(
                st.data.len() - 1,
                SpecDataPart { fields: last.fields.push(field), data: last.data },
            ),
        }
    } else {
        st
    }
}

pub open spec fn append_to_last(st: SpecRequestState, bytes: Seq<u8>) -> SpecRequestState {
    if st.data.len() > 0 {
        let last = st.data.last();
        SpecRequestState {
            boundary: st.boundary,
            is_data_part: st.is_data_part,
            is_data_part_header: st.is_data_part_header,
            data: st.data.update(
                st.data.len() - 1,
                SpecDataPart { fields: last.fields, data: last.data + bytes },
            ),
        }
    } else {
        st
    }
}

/// One line fed to the classifier: either it is consumed internally
/// (boundary handling, part headers, payload, blank separator) or it yields a
/// top-level field.
pub open spec fn spec_parse_single(st: SpecRequestState, line: Seq<u8>) -> Result<
    (Option<SpecField>, SpecRequestState),
    SpecRequestError,
> {
    if is_boundary_line(st, line) {
        let b = st.boundary->Some_0;
        let rest = line.subrange(2 + b.len() as int, line.len() as int);
        let closing = rest.len() >= 2 && rest[0] == 45u8 && rest[1] == 45u8;
        let st1 = trim_last_crlf(st);
        let st2 = if !closing {
            SpecRequestState {
                boundary: st1.boundary,
                is_data_part: true,
                is_data_part_header: true,
                data: st1.data.push(SpecDataPart { fields: Seq::empty(), data: Seq::empty() }),
            }
        } else {
            SpecRequestState {
                boundary: st1.boundary,
                is_data_part: false,
                is_data_part_header: false,
                data: st1.data,
            }
        };
        Ok((None, st2))
    } else if st.is_data_part {
        if st.is_data_part_header {
            if line == spec_crlf() {
                Ok((
                    None,
                    SpecRequestState {
                        boundary: st.boundary,
                        is_data_part: st.is_data_part,
                        is_data_part_header: false,
                        data: st.data,
                    },
                ))
            } else {
                match spec_parse_normal(st, line) {
                    Err(e) => Err(e),
                    Ok((field, st1)) => Ok((None, push_field_to_last(st1, field))),
                }
            }
        } else {
            Ok((None, append_to_last(st, line)))
        }
    } else {
        let stripped = if ends_with(line, spec_crlf()) {
            line.subrange(0, line.len() - 2)
        } else {
            line
        };
        if stripped.len() == 0 {
            Ok((None, st))
        } else {
            match spec_parse_normal(st, stripped) {
                Err(e) => Err(e),
                Ok((field, st1)) => Ok((Some(field), st1)),
            }
        }
    }
}

// ---------------------------------------------------------------------------
// The request line and the whole-chunk fold
// ---------------------------------------------------------------------------

/// The request line: method token, target path, `HTTP/` + major digit +
/// one skipped byte + minor digit, separated by single spaces.
pub open spec fn spec_parse_request_line(line: Seq<u8>) -> Result<SpecHeader, SpecRequestError> {
    let whole = decoded(line);
    let text = if ends_with(whole, seq!['\r', '\n']) {
        whole.subrange(0, whole.len() - 2)
    } else {
        whole
    };
    let tokens = spec_split(text, ' ');
    let t0 = tokens[0];
    if t0 != "GET"@ && t0 != "POST"@ {
        Err(SpecRequestError::UnknownRequestType(t0))
    } else {
        let request = if t0 == "GET"@ {
            RequestType::Get
        } else {
            RequestType::Post
        };
        if tokens.len() < 2 {
            Err(SpecRequestError::BodyMissing)
        } else if tokens.len() < 3 {
            Err(SpecRequestError::VersionMissing)
        } else {
            let v = tokens[2];
            if v.len() != 8 || v.subrange(0, 5) != "HTTP/"@ {
                Err(SpecRequestError::MalformedVersion)
            } else if !is_digit(v[5]) {
                Err(SpecRequestError::InvalidMajor)
            } else if digit_value(v[5]) != 1 {
                Err(SpecRequestError::UnsupportedMajor)
            } else if !is_digit(v[7]) {
                Err(SpecRequestError::InvalidMinor)
            } else {
                Ok(SpecHeader {
                    request,
                    body: tokens[1],
                    version_major: 1,
                    version_minor: digit_value(v[7]),
                })
            }
        }
    }
}

/// Every line of a chunk folded through the classifier; top-level fields are
/// appended to the request as they are produced.
pub open spec fn spec_feed(
    req: SpecRequest,
    st: SpecRequestState,
    lines: Seq<Seq<u8>>,
) -> Result<(SpecRequest, SpecRequestState), SpecRequestError>
    decreases lines.len(),
{
    if lines.len() == 0 {
        Ok((req, st))
    } else {
        match spec_parse_single(st, lines[0]) {
            Err(e) => Err(e),
            Ok((field_opt, st1)) => {
                let req1 = match field_opt {
                    Some(f) => SpecRequest {
                        header: req.header,
                        fields: req.fields.push(f),
                        data: req.data,
                    },
                    None => req,
                };
                spec_feed(req1, st1, lines.drop_first())
            },
        }
    }
}

/// The outcome of decoding one chunk.
#[verifier::ext_equal]
pub struct SpecDecoded {
    pub request: SpecRequest,
    pub state: SpecRequestState,
    pub is_partial: bool,
}

/// The resumable decoder on one chunk: without a carried request the state is
/// reset and the first line must be a request line; with one, every line is
/// continuation data.  When the chunk ends outside a part, the finished parts
/// move from the state into the request and the request is complete.
pub open spec fn spec_decode(
    carried: Option<SpecRequest>,
    st: SpecRequestState,
    s: Seq<u8>,
) -> Result<SpecDecoded, SpecRequestError> {
    let lines = spec_lines(s);
    let fed = match carried {
        None => {
            if lines.len() == 0 {
                Err(SpecRequestError::HeaderMissing)
            } else {
                match spec_parse_request_line(lines[0]) {
                    Err(e) => Err(e),
                    Ok(h) => spec_feed(
                        SpecRequest { header: h, fields: Seq::empty(), data: Seq::empty() },
                        spec_state_default(),
                        lines.drop_first(),
                    ),
                }
            }
        },
        Some(r) => spec_feed(r, st, lines),
    };
    match fed {
        Err(e) => Err(e),
        Ok((req, st1)) => {
            if st1.is_data_part {
                Ok(SpecDecoded { request: req, state: st1, is_partial: true })
            } else {
                Ok(
                    SpecDecoded {
                        request: SpecRequest {
                            header: req.header,
                            fields: req.fields,
                            data: req.data + st1.data,
                        },
                        state: SpecRequestState {
                            boundary: st1.boundary,
                            is_data_part: st1.is_data_part,
                            is_data_part_header: st1.is_data_part_header,
                            data: Seq::empty(),
                        },
                        is_partial: false,
                    },
                )
            }
        },
    }
}

// ---------------------------------------------------------------------------
// Response framing
// ---------------------------------------------------------------------------

/// The character of one decimal digit.
pub open spec fn digit_char(d: nat) -> char {
    ((d + 48) as u8) as char
}

/// Decimal digits of `n`, most significant first.
pub open spec fn spec_dec(n: nat) -> Seq<char>
    decreases n,
{
    if n < 10 {
        seq![digit_char(n)]
    } else {
        spec_dec(n / 10).push(digit_char(n % 10))
    }
}

/// The status line of a response.
pub open spec fn status_text(s: Status) -> Seq<char> {
    match s {
        Status::Okay => "HTTP/1.1 200 OK"@,
        Status::NotFound => "HTTP/1.1 404 Not Found"@,
    }
}

/// The `Content-Type` header line of a response.
pub open spec fn content_type_text(c: ContentType) -> Seq<char> {
    match c {
        ContentType::Html => "Content-Type: text/html"@,
        ContentType::Javascript => "Content-Type: application/javascript"@,
        ContentType::Css => "Content-Type: text/css"@,
        ContentType::Png => "Content-Type: image/png"@,
        ContentType::Jpg => "Content-Type: image/jpeg"@,
        ContentType::Webp => "Content-Type: image/webp"@,
        ContentType::Gif => "Content-Type: image/gif"@,
        ContentType::Txt => "Content-Type: text/plain"@,
        ContentType::Icon => "Content-Type: image/x-icon"@,
        ContentType::Json => "Content-Type: application/json"@,
        ContentType::Opus => "Content-Type: audio/ogg"@,
        ContentType::Mpeg => "Content-Type: audio/mpeg"@,
        ContentType::Ttf => "Content-Type: font/ttf"@,
        ContentType::Woff => "Content-Type: font/woff"@,
        ContentType::Wasm => "Content-Type: application/wasm"@,
    }
}

/// The fixed table from a file extension to its content type.
pub open spec fn content_type_of(ext: Seq<char>) -> Option<ContentType> {
    if ext == "html"@ {
        Some(ContentType::Html)
    } else if ext == "js"@ {
        Some(ContentType::Javascript)
    } else if ext == "css"@ {
        Some(ContentType::Css)
    } else if ext == "png"@ {
        Some(ContentType::Png)
    } else if ext == "jpg"@ || ext == "jpeg"@ {
        Some(ContentType::Jpg)
    } else if ext == "webp"@ {
        Some(ContentType::Webp)
    } else if ext == "gif"@ {
        Some(ContentType::Gif)
    } else if ext == "txt"@ {
        Some(ContentType::Txt)
    } else if ext == "ico"@ {
        Some(ContentType::Icon)
    } else if ext == "json"@ {
        Some(ContentType::Json)
    } else if ext == "opus"@ {
        Some(ContentType::Opus)
    } else if ext == "mp3"@ {
        Some(ContentType::Mpeg)
    } else if ext == "ttf"@ {
        Some(ContentType::Ttf)
    } else if ext == "woff"@ {
        Some(ContentType::Woff)
    } else if ext == "wasm"@ {
        Some(ContentType::Wasm)
    } else {
        None
    }
}

/// The header block of a response: status line, content type, a fixed
/// keep-alive line, and, only for a non-empty body, its length, each line
/// CRLF-terminated.
pub open spec fn response_header_bytes(s: Status, c: ContentType, len: nat) -> Seq<u8> {
    encoded(status_text(s)) + spec_crlf() + encoded(content_type_text(c)) + spec_crlf() + encoded(
        "Connection: keep-alive"@,
    ) + spec_crlf() + if len != 0 {
        encoded("Content-Length: "@ + spec_dec(len)) + spec_crlf()
    } else {
        Seq::empty()
    }
}

/// A whole response: the header block, a blank line, and the body verbatim.
pub open spec fn response_bytes(s: Status, c: ContentType, body: Seq<u8>) -> Seq<u8> {
    response_header_bytes(s, c, body.len()) + spec_crlf() + body
}


// ---------------------------------------------------------------------------
// Part encoding
// ---------------------------------------------------------------------------

/// The rendering of a field's attributes: `; name="value"` for each.
pub open spec fn children_chars(children: Seq<SpecFieldSimple>) -> Seq<char>
    decreases children.len(),
{
    if children.len() == 0 {
        Seq::empty()
    } else {
        seq![';', ' '] + children[0].name + seq!['=', '"'] + children[0].body + seq!['"']
            + children_chars(children.drop_first())
    }
}

/// The rendering of one mini-header field line, terminator included.
pub open spec fn field_line_chars(f: SpecField) -> Seq<char> {
    f.this.name + seq![':', ' '] + f.this.body + children_chars(f.children) + seq!['\r', '\n']
}

/// The rendering of a whole mini-header block.
pub open spec fn fields_chars(fields: Seq<SpecField>) -> Seq<char>
    decreases fields.len(),
{
    if fields.len() == 0 {
        Seq::empty()
    } else {
        field_line_chars(fields[0]) + fields_chars(fields.drop_first())
    }
}

/// One encoded body part: the boundary line, the mini-header, a blank line,
/// the payload verbatim, and a trailing CRLF.  The textual prefix is written
/// out in UTF-8.
pub open spec fn encode_part_bytes(
    fields: Seq<SpecField>,
    payload: Seq<u8>,
    boundary: Seq<char>,
) -> Seq<u8> {
    vstd::utf8::encode_utf8(
        seq!['-', '-'] + boundary + seq!['\r', '\n'] + fields_chars(fields) + seq!['\r', '\n'],
    ) + payload + spec_crlf()
}

pub proof fn lemma_children_chars_push(a: Seq<SpecFieldSimple>, x: SpecFieldSimple)
    ensures
        children_chars(a.push(x)) == children_chars(a) + (seq![';', ' '] + x.name
            + seq!['=', '"'] + x.body + seq!['"']),
    decreases a.len(),
{
    let piece = seq![';', ' '] + x.name + seq!['=', '"'] + x.body + seq!['"'];
    assert(children_chars(Seq::<SpecFieldSimple>::empty()) == Seq::<char>::empty());
    if a.len() == 0 {
        assert(a.push(x)[0] == x);
        assert(a.push(x).drop_first() =~= Seq::<SpecFieldSimple>::empty());
        assert(children_chars(a.push(x)) == piece + children_chars(
            Seq::<SpecFieldSimple>::empty(),
        ));
        assert(children_chars(a.push(x)) =~= children_chars(a) + piece);
    } else {
        assert(a.push(x)[0] == a[0]);
        assert(a.push(x).drop_first() =~= a.drop_first().push(x));
        lemma_children_chars_push(a.drop_first(), x);
        let piece0 = seq![';', ' '] + a[0].name + seq!['=', '"'] + a[0].body + seq!['"'];
        assert(children_chars(a.push(x)) == piece0 + children_chars(a.drop_first().push(x)));
        assert(children_chars(a.push(x)) == piece0 + (children_chars(a.drop_first()) + piece));
        assert(children_chars(a) == piece0 + children_chars(a.drop_first()));
        assert(children_chars(a.push(x)) =~= children_chars(a) + piece);
    }
}

pub proof fn lemma_fields_chars_push(a: Seq<SpecField>, x: SpecField)
    ensures
        fields_chars(a.push(x)) == fields_chars(a) + field_line_chars(x),
    decreases a.len(),
{
    assert(fields_chars(Seq::<SpecField>::empty()) == Seq::<char>::empty());
    if a.len() == 0 {
        assert(a.push(x)[0] == x);
        assert(a.push(x).drop_first() =~= Seq::<SpecField>::empty());
        assert(fields_chars(a.push(x)) == field_line_chars(x) + fields_chars(
            Seq::<SpecField>::empty(),
        ));
        assert(fields_chars(a.push(x)) =~= fields_chars(a) + field_line_chars(x));
    } else {
        assert(a.push(x)[0] == a[0]);
        assert(a.push(x).drop_first() =~= a.drop_first().push(x));
        lemma_fields_chars_push(a.drop_first(), x);
        assert(fields_chars(a.push(x)) == field_line_chars(a[0]) + fields_chars(
            a.drop_first().push(x),
        ));
        assert(fields_chars(a) == field_line_chars(a[0]) + fields_chars(a.drop_first()));
        assert(fields_chars(a.push(x)) =~= fields_chars(a) + field_line_chars(x));
    }
}

} // verus!
