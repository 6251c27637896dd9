//! The decoder's general laws: feeding a request in pieces cannot change
//! what is decoded, a well-formed request line always decodes to its parts,
//! a request that never declares a boundary never grows a multipart body,
//! an encoded body part decodes back to itself, and the carry state keeps
//! its invariant through every chunk.

use vstd::prelude::*;

use crate::server::http::model::{
    children_chars, decoded, digit_value, encode_part_bytes, encoded, ends_with, field_line_chars,
    fields_chars, is_boundary_line, is_digit, is_ws, lemma_lines_step, lemma_spec_find, spec_crlf,
    spec_decode, spec_feed, spec_find, spec_lines, spec_parse_arg, spec_parse_children,
    spec_parse_normal, spec_parse_request_line, spec_parse_single, spec_split, spec_state_default,
    spec_trim, spec_trim_back, starts_with, trim_last_crlf, trimmed_segments, SpecDataPart,
    SpecField, SpecFieldSimple, SpecHeader, SpecRequest, SpecRequestError, SpecRequestState,
};
use crate::server::http::RequestType;

verus! {

/// A chunk whose bytes hold exactly one line: its own terminator and no
/// earlier one.
pub proof fn lemma_lines_single(l: Seq<u8>)
    requires
        l.len() > 0,
        l.last() == 10u8,
        forall|k: int| 0 <= k < l.len() - 1 ==> l[k] != 10u8,
    ensures
        spec_lines(l) == seq![l],
{
    assert(l.skip(0) =~= l);
    lemma_lines_step(l, 0, l.len() as int);
    assert(l.subrange(0, l.len() as int) =~= l);
    assert(l.skip(l.len() as int) =~= Seq::<u8>::empty());
    assert(spec_lines(Seq::<u8>::empty()) =~= Seq::<Seq<u8>>::empty());
    assert(seq![l] + Seq::<Seq<u8>>::empty() =~= seq![l]);
}

/// Splitting into lines distributes over concatenation, as long as the cut
/// falls at a line boundary (the first piece is empty or ends in `\n`).
pub proof fn lemma_lines_concat(a: Seq<u8>, b: Seq<u8>)
    requires
        a.len() == 0 || a.last() == 10u8,
    ensures
        spec_lines(a + b) == spec_lines(a) + spec_lines(b),
    decreases a.len(),
{
    if a.len() == 0 {
        assert(a + b =~= b);
        assert(spec_lines(a) =~= Seq::<Seq<u8>>::empty());
        assert(spec_lines(a) + spec_lines(b) =~= spec_lines(b));
    } else {
        lemma_spec_find(a, 10u8);
        let i = match spec_find(a, 10u8) {
            Some(i) => i,
            None => 0,
        };
        assert(a[a.len() - 1] == 10u8);
        assert(spec_find(a, 10u8) is Some);
        assert(a.skip(0) =~= a);
        lemma_lines_step(a, 0, i + 1);
        let rest = a.skip(i + 1);
        let ab = a + b;
        assert forall|k: int| 0 <= k < i implies ab[k] != 10u8 by {
            assert(ab[k] == a[k]);
        }
        assert(ab[i] == a[i]);
        assert(ab.skip(0) =~= ab);
        lemma_lines_step(ab, 0, i + 1);
        assert(ab.subrange(0, i + 1) =~= a.subrange(0, i + 1));
        assert(ab.skip(i + 1) =~= rest + b);
        if rest.len() > 0 {
            assert(rest.last() == a.last());
        }
        lemma_lines_concat(rest, b);
        assert(seq![a.subrange(0, i + 1)] + (spec_lines(rest) + spec_lines(b)) =~= (seq![
            a.subrange(0, i + 1),
        ] + spec_lines(rest)) + spec_lines(b));
    }
}

/// Folding lines through the classifier distributes over concatenation.
pub proof fn lemma_feed_concat(
    req: SpecRequest,
    st: SpecRequestState,
    x: Seq<Seq<u8>>,
    y: Seq<Seq<u8>>,
)
    ensures
        spec_feed(req, st, x + y) == (match spec_feed(req, st, x) {
            Err(e) => Err::<(SpecRequest, SpecRequestState), SpecRequestError>(e),
            Ok((r1, s1)) => spec_feed(r1, s1, y),
        }),
    decreases x.len(),
{
    if x.len() == 0 {
        assert(x + y =~= y);
    } else {
        assert((x + y)[0] == x[0]);
        assert((x + y).drop_first() =~= x.drop_first() + y);
        match spec_parse_single(st, x[0]) {
            Err(e) => {},
            Ok((fo, st1)) => {
                let req1 = match fo {
                    Some(f) => SpecRequest {
                        header: req.header,
                        fields: req.fields.push(f),
                        data: req.data,
                    },
                    None => req,
                };
                lemma_feed_concat(req1, st1, x.drop_first(), y);
            },
        }
    }
}

/// Decoding is insensitive to where a request is cut, as long as the cut
/// falls at a line boundary: when one chunk leaves the request partial,
/// feeding the carried request and state into the decoder with the rest of
/// the bytes ends exactly where decoding the whole sequence at once would.
pub proof fn lemma_decode_resumes(
    carried: Option<SpecRequest>,
    st: SpecRequestState,
    a: Seq<u8>,
    b: Seq<u8>,
)
    requires
        a.len() == 0 || a.last() == 10u8,
        spec_decode(carried, st, a) is Ok,
        spec_decode(carried, st, a)->Ok_0.is_partial,
    ensures
        spec_decode(
            Some(spec_decode(carried, st, a)->Ok_0.request),
            spec_decode(carried, st, a)->Ok_0.state,
            b,
        ) == spec_decode(carried, st, a + b),
{
    let d1 = spec_decode(carried, st, a)->Ok_0;
    lemma_lines_concat(a, b);
    let la = spec_lines(a);
    let lb = spec_lines(b);
    match carried {
        None => {
            assert(la.len() > 0);
            assert((la + lb)[0] == la[0]);
            assert(spec_parse_request_line(la[0]) is Ok);
            let init = SpecRequest {
                header: spec_parse_request_line(la[0])->Ok_0,
                fields: Seq::empty(),
                data: Seq::empty(),
            };
            assert((la + lb).drop_first() =~= la.drop_first() + lb);
            lemma_feed_concat(init, spec_state_default(), la.drop_first(), lb);
            assert(spec_feed(init, spec_state_default(), la.drop_first()) == Ok::<
                (SpecRequest, SpecRequestState),
                SpecRequestError,
            >((d1.request, d1.state)));
        },
        Some(r0) => {
            lemma_feed_concat(r0, st, la, lb);
            assert(spec_feed(r0, st, la) == Ok::<
                (SpecRequest, SpecRequestState),
                SpecRequestError,
            >((d1.request, d1.state)));
        },
    }
}


/// The companion of [`lemma_decode_resumes`] for a cut that falls before
/// any body part is finished: when the first chunk decodes completely but
/// folded no parts into the request, carrying its result into the decoder
/// with the rest of the bytes still ends exactly where decoding the whole
/// sequence at once would.
pub proof fn lemma_decode_resumes_flat(
    carried: Option<SpecRequest>,
    st: SpecRequestState,
    a: Seq<u8>,
    b: Seq<u8>,
)
    requires
        a.len() == 0 || a.last() == 10u8,
        spec_decode(carried, st, a) is Ok,
        !spec_decode(carried, st, a)->Ok_0.is_partial,
        spec_decode(carried, st, a)->Ok_0.request.data.len() == (match carried {
            Some(r) => r.data.len(),
            None => 0,
        }),
    ensures
        spec_decode(
            Some(spec_decode(carried, st, a)->Ok_0.request),
            spec_decode(carried, st, a)->Ok_0.state,
            b,
        ) == spec_decode(carried, st, a + b),
{
    let d1 = spec_decode(carried, st, a)->Ok_0;
    lemma_lines_concat(a, b);
    let la = spec_lines(a);
    let lb = spec_lines(b);
    match carried {
        None => {
            assert(la.len() > 0);
            assert((la + lb)[0] == la[0]);
            assert(spec_parse_request_line(la[0]) is Ok);
            let init = SpecRequest {
                header: spec_parse_request_line(la[0])->Ok_0,
                fields: Seq::empty(),
                data: Seq::empty(),
            };
            assert((la + lb).drop_first() =~= la.drop_first() + lb);
            lemma_feed_concat(init, spec_state_default(), la.drop_first(), lb);
            let fed = spec_feed(init, spec_state_default(), la.drop_first());
            let req1 = fed->Ok_0.0;
            let st1 = fed->Ok_0.1;
            assert(d1.request.data =~= req1.data + st1.data);
            assert(st1.data.len() == 0);
            assert(st1.data =~= Seq::<SpecDataPart>::empty());
            assert(req1.data + st1.data =~= req1.data);
            assert(d1.request =~~= req1);
            assert(d1.state =~~= st1);
        },
        Some(r0) => {
            lemma_feed_concat(r0, st, la, lb);
            let fed = spec_feed(r0, st, la);
            let req1 = fed->Ok_0.0;
            let st1 = fed->Ok_0.1;
            assert(d1.request.data =~= req1.data + st1.data);
            assert(req1.data.len() >= r0.data.len()) by {
                lemma_feed_request_grows(r0, st, la);
            }
            assert(st1.data.len() == 0);
            assert(st1.data =~= Seq::<SpecDataPart>::empty());
            assert(req1.data + st1.data =~= req1.data);
            assert(d1.request =~~= req1);
            assert(d1.state =~~= st1);
        },
    }
}

/// Feeding lines never removes anything from the request: the header stays
/// and the field and part lists only grow.
pub proof fn lemma_feed_request_grows(req: SpecRequest, st: SpecRequestState, ls: Seq<Seq<u8>>)
    ensures
        match spec_feed(req, st, ls) {
            Err(_) => true,
            Ok((r1, _)) => r1.data.len() >= req.data.len() && r1.header == req.header,
        },
    decreases ls.len(),
{
    if ls.len() > 0 {
        match spec_parse_single(st, ls[0]) {
            Err(_) => {},
            Ok((fo, st1)) => {
                let req1 = match fo {
                    Some(f) => SpecRequest {
                        header: req.header,
                        fields: req.fields.push(f),
                        data: req.data,
                    },
                    None => req,
                };
                lemma_feed_request_grows(req1, st1, ls.drop_first());
            },
        }
    }
}

/// The classifier preserves the state invariant: the mini-header flag only
/// holds inside a part, and being inside a part means one is open.
pub proof fn lemma_classifier_keeps_wf(st: SpecRequestState, line: Seq<u8>)
    requires
        crate::server::http::model::state_wf(st),
    ensures
        match spec_parse_single(st, line) {
            Err(_) => true,
            Ok((_, st1)) => crate::server::http::model::state_wf(st1),
        },
{
}

/// Whatever one chunk does, the state it leaves behind keeps the invariant,
/// and a complete request leaves no unfinished part behind.
pub proof fn lemma_decode_state_wf(
    carried: Option<SpecRequest>,
    st: SpecRequestState,
    s: Seq<u8>,
)
    requires
        crate::server::http::model::state_wf(st),
    ensures
        match spec_decode(carried, st, s) {
            Err(_) => true,
            Ok(d) => crate::server::http::model::state_wf(d.state) && (!d.is_partial
                ==> d.state.data.len() == 0),
        },
{
    let ls = spec_lines(s);
    match carried {
        None => {
            if ls.len() > 0 {
                match spec_parse_request_line(ls[0]) {
                    Err(_) => {},
                    Ok(h) => {
                        let init = SpecRequest {
                            header: h,
                            fields: Seq::empty(),
                            data: Seq::empty(),
                        };
                        lemma_feed_keeps_wf(init, spec_state_default(), ls.drop_first());
                    },
                }
            }
        },
        Some(r0) => {
            lemma_feed_keeps_wf(r0, st, ls);
        },
    }
}

/// The fold of the classifier preserves the state invariant.
pub proof fn lemma_feed_keeps_wf(req: SpecRequest, st: SpecRequestState, ls: Seq<Seq<u8>>)
    requires
        crate::server::http::model::state_wf(st),
    ensures
        match spec_feed(req, st, ls) {
            Err(_) => true,
            Ok((_, s1)) => crate::server::http::model::state_wf(s1),
        },
    decreases ls.len(),
{
    if ls.len() > 0 {
        lemma_classifier_keeps_wf(st, ls[0]);
        match spec_parse_single(st, ls[0]) {
            Err(_) => {},
            Ok((fo, st1)) => {
                let req1 = match fo {
                    Some(f) => SpecRequest {
                        header: req.header,
                        fields: req.fields.push(f),
                        data: req.data,
                    },
                    None => req,
                };
                lemma_feed_keeps_wf(req1, st1, ls.drop_first());
            },
        }
    }
}

// ---------------------------------------------------------------------------
// A request without a boundary never grows a multipart body
// ---------------------------------------------------------------------------

/// Does this top-level line declare a multipart boundary?  Only a
/// `Content-Type` field whose value starts with `multipart` does.
pub open spec fn line_declares_boundary(line: Seq<u8>) -> bool {
    let stripped = if ends_with(line, spec_crlf()) {
        line.subrange(0, line.len() - 2)
    } else {
        line
    };
    match spec_parse_arg(decoded(stripped)) {
        None => false,
        Some(simple) => simple.name == "Content-Type"@ && starts_with(
            trimmed_segments(simple.body)[0],
            "multipart"@,
        ),
    }
}

/// While no line declares a boundary, the classifier never opens a part:
/// the state stays flat and only top-level fields are produced.
pub proof fn lemma_flat_feed(req: SpecRequest, st: SpecRequestState, ls: Seq<Seq<u8>>)
    requires
        st.boundary is None,
        !st.is_data_part,
        !st.is_data_part_header,
        st.data.len() == 0,
        forall|i: int| 0 <= i < ls.len() ==> !line_declares_boundary(#[trigger] ls[i]),
    ensures
        match spec_feed(req, st, ls) {
            Err(_) => true,
            Ok((r1, s1)) => {
                &&& s1.boundary is None
                &&& !s1.is_data_part
                &&& !s1.is_data_part_header
                &&& s1.data.len() == 0
                &&& r1.data == req.data
                &&& r1.header == req.header
            },
        },
    decreases ls.len(),
{
    if ls.len() > 0 {
        let line = ls[0];
        match spec_parse_single(st, line) {
            Err(_) => {},
            Ok((fo, st1)) => {
                let stripped = if ends_with(line, spec_crlf()) {
                    line.subrange(0, line.len() - 2)
                } else {
                    line
                };
                if stripped.len() > 0 {
                    match spec_parse_arg(decoded(stripped)) {
                        None => {},
                        Some(simple) => {
                            assert(!line_declares_boundary(line));
                        },
                    }
                }
                assert(st1 == st);
                let req1 = match fo {
                    Some(f) => SpecRequest {
                        header: req.header,
                        fields: req.fields.push(f),
                        data: req.data,
                    },
                    None => req,
                };
                assert forall|i: int|
                    0 <= i < ls.drop_first().len() implies !line_declares_boundary(
                    #[trigger] ls.drop_first()[i],
                ) by {
                    assert(ls.drop_first()[i] == ls[i + 1]);
                }
                lemma_flat_feed(req1, st1, ls.drop_first());
            },
        }
    }
}

/// A fresh request whose continuation lines never declare a boundary is
/// complete in one chunk and carries no multipart data at all.
pub proof fn lemma_non_multipart_decode(st: SpecRequestState, s: Seq<u8>)
    requires
        forall|i: int|
            1 <= i < spec_lines(s).len() ==> !line_declares_boundary(#[trigger] spec_lines(s)[i]),
    ensures
        match spec_decode(None, st, s) {
            Err(_) => true,
            Ok(d) => {
                &&& !d.is_partial
                &&& d.request.data.len() == 0
                &&& d.state.boundary is None
                &&& d.state.data.len() == 0
            },
        },
{
    let ls = spec_lines(s);
    if ls.len() > 0 {
        match spec_parse_request_line(ls[0]) {
            Err(_) => {},
            Ok(h) => {
                let init = SpecRequest { header: h, fields: Seq::empty(), data: Seq::empty() };
                assert forall|i: int|
                    0 <= i < ls.drop_first().len() implies !line_declares_boundary(
                    #[trigger] ls.drop_first()[i],
                ) by {
                    assert(ls.drop_first()[i] == ls[i + 1]);
                }
                lemma_flat_feed(init, spec_state_default(), ls.drop_first());
            },
        }
    }
}

// ---------------------------------------------------------------------------
// The request line
// ---------------------------------------------------------------------------

/// One step of splitting: the text before the first separator is the first
/// segment.
pub proof fn lemma_split_step(s: Seq<char>, sep: char, i: int)
    requires
        0 <= i < s.len(),
        s[i] == sep,
        forall|k: int| 0 <= k < i ==> s[k] != sep,
    ensures
        spec_split(s, sep) == seq![s.subrange(0, i)] + spec_split(
            s.subrange(i + 1, s.len() as int),
            sep,
        ),
{
    lemma_spec_find(s, sep);
    match spec_find(s, sep) {
        None => {
            assert(s[i] != sep);
        },
        Some(m) => {
            if m < i {
                assert(s[m] != sep);
            } else if m > i {
                assert(s[i] != sep);
            }
        },
    }
}

/// A text without the separator is a single segment.
pub proof fn lemma_split_none(s: Seq<char>, sep: char)
    requires
        forall|k: int| 0 <= k < s.len() ==> s[k] != sep,
    ensures
        spec_split(s, sep) == seq![s],
{
    lemma_spec_find(s, sep);
    match spec_find(s, sep) {
        None => {},
        Some(m) => {
            assert(s[m] != sep);
        },
    }
}

/// A request line of the canonical shape decodes exactly: a `GET` or `POST`
/// with major version `1` succeeds and reproduces the method, the path and
/// the minor digit; any other method is an unknown-method error; any other
/// major digit is an unsupported-version error.
pub proof fn lemma_request_line_decodes(
    line: Seq<u8>,
    method: Seq<char>,
    path: Seq<char>,
    major: char,
    minor: char,
)
    requires
        decoded(line) == method + seq![' '] + path + seq![' '] + "HTTP/"@ + seq![major, '.', minor]
            + seq!['\r', '\n'],
        forall|k: int| 0 <= k < method.len() ==> (#[trigger] method[k]) != ' ',
        forall|k: int| 0 <= k < path.len() ==> (#[trigger] path[k]) != ' ',
        is_digit(major),
        is_digit(minor),
    ensures
        spec_parse_request_line(line) == (if method == "GET"@ || method == "POST"@ {
            if major == '1' {
                Ok::<SpecHeader, SpecRequestError>(
                    SpecHeader {
                        request: if method == "GET"@ {
                            RequestType::Get
                        } else {
                            RequestType::Post
                        },
                        body: path,
                        version_major: 1,
                        version_minor: digit_value(minor),
                    },
                )
            } else {
                Err(SpecRequestError::UnsupportedMajor)
            }
        } else {
            Err(SpecRequestError::UnknownRequestType(method))
        }),
{
    reveal_strlit("HTTP/");
    assert("HTTP/"@.len() == 5);
    let whole = decoded(line);
    let n = whole.len() as int;
    assert(whole.subrange(n - 2, n) =~= seq!['\r', '\n']);
    assert(ends_with(whole, seq!['\r', '\n']));
    let text = whole.subrange(0, n - 2);
    let v = "HTTP/"@ + seq![major, '.', minor];
    assert(text =~= method + seq![' '] + path + seq![' '] + v);
    let ml = method.len() as int;
    let pl = path.len() as int;
    assert(text[ml] == ' ');
    assert forall|k: int| 0 <= k < ml implies text[k] != ' ' by {
        assert(text[k] == method[k]);
    }
    lemma_split_step(text, ' ', ml);
    assert(text.subrange(0, ml) =~= method);
    let rest1 = text.subrange(ml + 1, text.len() as int);
    assert(rest1 =~= path + seq![' '] + v);
    assert(rest1[pl] == ' ');
    assert(v[0] == 'H' && v[1] == 'T' && v[2] == 'T' && v[3] == 'P' && v[4] == '/');
    assert(v.len() == 8);
    assert forall|k: int| 0 <= k < v.len() implies v[k] != ' ' by {
        if k >= 5 {
            assert(v[k] == seq![major, '.', minor][k - 5]);
        }
    }
    assert forall|k: int| 0 <= k < pl implies rest1[k] != ' ' by {
        assert(rest1[k] == path[k]);
    }
    lemma_split_step(rest1, ' ', pl);
    assert(rest1.subrange(0, pl) =~= path);
    let rest2 = rest1.subrange(pl + 1, rest1.len() as int);
    assert(rest2 =~= v);
    lemma_split_none(rest2, ' ');
    let tokens = spec_split(text, ' ');
    assert(tokens =~= seq![method] + (seq![path] + seq![rest2]));
    assert(tokens.len() == 3);
    assert(tokens[0] == method);
    assert(tokens[1] == path);
    assert(tokens[2] == rest2);
    assert(rest2.subrange(0, 5) =~= "HTTP/"@);
    assert(rest2[5] == major);
    assert(rest2[7] == minor);
    assert(('1' as u32) == 49);
    if major == '1' {
        assert(digit_value(major) == 1);
    } else {
        assert(digit_value(major) != 1) by {
            if (major as u32) == 49 {
                vstd::utf8::char_u32_cast(major, 49);
                vstd::utf8::char_u32_cast('1', 49);
            }
        }
    }
}


// ---------------------------------------------------------------------------
// Encoding one part and decoding it back
// ---------------------------------------------------------------------------

/// Printable ASCII: what header names and values are made of.
pub open spec fn clean_text(s: Seq<char>) -> bool {
    forall|k: int| #![trigger s[k]] 0 <= k < s.len() ==> ((32 <= (s[k] as u32)) && ((s[k] as u32) < 127))
}

/// Characters below 256 survive the byte round trip.
pub proof fn lemma_latin1_roundtrip(c: char)
    requires
        (c as u32) < 256,
    ensures
        ((c as u8) as char) == c,
{
    assert((c as u8) as u32 == c as u32);
    vstd::utf8::char_u32_cast(c, c as u32);
    assert(((c as u32) as char) == c);
    assert(((c as u8) as char) == ((c as u32) as char));
}

/// Reading the bytes of ISO-8859-1 text gives the text back.
pub proof fn lemma_decoded_encoded(s: Seq<char>)
    requires
        forall|k: int| 0 <= k < s.len() ==> ((#[trigger] s[k]) as u32) < 256,
    ensures
        decoded(encoded(s)) == s,
{
    assert forall|k: int| 0 <= k < s.len() implies decoded(encoded(s))[k] == s[k] by {
        assert(encoded(s)[k] == (s[k] as u8));
        lemma_latin1_roundtrip(s[k]);
    }
    assert(decoded(encoded(s)) =~= s);
}

/// ASCII text encodes to UTF-8 one byte per character.
pub proof fn lemma_ascii_utf8(s: Seq<char>)
    requires
        forall|k: int| 0 <= k < s.len() ==> ((#[trigger] s[k]) as u32) < 128,
    ensures
        vstd::utf8::encode_utf8(s) == encoded(s),
{
    assert forall|k: int| 0 <= k < s.len() implies '\0' <= #[trigger] s[k] <= '\u{7f}' by {
        assert((s[k] as u32) < 128);
        assert(('\u{7f}' as u32) == 127);
        if !('\0' <= s[k] <= '\u{7f}') {
            vstd::utf8::char_u32_cast(s[k], s[k] as u32);
        }
    }
    assert(vstd::utf8::is_ascii_chars(s));
    vstd::utf8::is_ascii_chars_encode_utf8(s);
    assert(vstd::utf8::encode_utf8(s) =~= encoded(s));
}

/// The bytes of a concatenation are the concatenated bytes.
pub proof fn lemma_encoded_concat(a: Seq<char>, b: Seq<char>)
    ensures
        encoded(a + b) == encoded(a) + encoded(b),
{
    assert forall|k: int| 0 <= k < a.len() + b.len() implies encoded(a + b)[k] == (encoded(a)
        + encoded(b))[k] by {
        if k < a.len() {
            assert((a + b)[k] == a[k]);
        } else {
            assert((a + b)[k] == b[k - a.len()]);
        }
    }
    assert(encoded(a + b) =~= encoded(a) + encoded(b));
}

/// A well-formed attribute: printable text, no separator characters in the
/// name, no leading space in the name, and no `:` or `;` in the value.
pub open spec fn wf_child(c: SpecFieldSimple) -> bool {
    &&& clean_text(c.name)
    &&& clean_text(c.body)
    &&& !c.name.contains(':')
    &&& !c.name.contains('=')
    &&& !c.name.contains(';')
    &&& c.name.len() > 0 ==> c.name[0] != ' '
    &&& !c.body.contains(':')
    &&& !c.body.contains(';')
}

/// A well-formed field for the round trip: printable text, the name free of
/// `:`, the value trimmed, unquoted and free of `;`, attributes only where
/// the parser will look for them, no boundary declaration, and a line that
/// cannot be mistaken for a boundary line.
pub open spec fn wf_field(f: SpecField, b: Seq<char>) -> bool {
    &&& clean_text(f.this.name)
    &&& !f.this.name.contains(':')
    &&& clean_text(f.this.body)
    &&& !f.this.body.contains(';')
    &&& (f.this.body.len() > 0 ==> f.this.body[0] != ' ' && f.this.body.last() != ' '
        && f.this.body[0] != '"')
    &&& (f.this.name == "User-Agent"@ ==> f.children.len() == 0)
    &&& !(f.this.name == "Content-Type"@ && starts_with(f.this.body, "multipart"@))
    &&& forall|j: int| 0 <= j < f.children.len() ==> wf_child(#[trigger] f.children[j])
    &&& !starts_with(field_line_chars(f), seq!['-', '-'] + b)
}

/// The attribute rendering of well-formed children is printable, with no
/// line break anywhere.
pub proof fn lemma_cc_clean(children: Seq<SpecFieldSimple>)
    requires
        forall|j: int| 0 <= j < children.len() ==> wf_child(#[trigger] children[j]),
    ensures
        clean_text(children_chars(children)),
    decreases children.len(),
{
    if children.len() > 0 {
        assert(wf_child(children[0]));
        assert forall|j: int|
            0 <= j < children.drop_first().len() implies wf_child(
            #[trigger] children.drop_first()[j],
        ) by {
            assert(children.drop_first()[j] == children[j + 1]);
        }
        lemma_cc_clean(children.drop_first());
        let cc = children_chars(children);
        let piece = seq![';', ' '] + children[0].name + seq!['=', '"'] + children[0].body
            + seq!['"'];
        assert(cc =~= piece + children_chars(children.drop_first()));
        assert forall|k: int| 0 <= k < cc.len() implies 32 <= (cc[k] as u32) && (cc[k] as u32)
            < 127 by {
            if k < piece.len() {
                assert(cc[k] == piece[k]);
                let n = children[0].name;
                let v = children[0].body;
                if 2 <= k < 2 + n.len() {
                    assert(piece[k] == n[k - 2]);
                } else if 4 + n.len() <= k < 4 + n.len() + v.len() {
                    assert(piece[k] == v[k - 4 - n.len()]);
                }
            } else {
                assert(cc[k] == children_chars(children.drop_first())[k - piece.len()]);
            }
        }
    }
}

/// A well-formed field renders as printable text closed by one CRLF.
pub proof fn lemma_field_line_clean(f: SpecField, b: Seq<char>)
    requires
        wf_field(f, b),
    ensures
        ({
            let l = field_line_chars(f);
            &&& l.len() >= 4
            &&& l[l.len() - 2] == '\r'
            &&& l[l.len() - 1] == '\n'
            &&& forall|k: int|
                #![trigger l[k]]
                0 <= k < l.len() - 2 ==> ((32 <= (l[k] as u32)) && ((l[k] as u32) < 127))
        }),
{
    lemma_cc_clean(f.children);
    let l = field_line_chars(f);
    let body_part = f.this.name + seq![':', ' '] + f.this.body + children_chars(f.children);
    assert(l =~= body_part + seq!['\r', '\n']);
    assert forall|k: int|
        0 <= k < l.len() - 2 implies 32 <= (l[k] as u32) && (l[k] as u32) < 127 by {
        assert(l[k] == body_part[k]);
        let nl = f.this.name.len() as int;
        let bl = f.this.body.len() as int;
        if k < nl {
            assert(body_part[k] == f.this.name[k]);
        } else if k < nl + 2 {
            assert(body_part[k] == seq![':', ' '][k - nl]);
        } else if k < nl + 2 + bl {
            assert(body_part[k] == f.this.body[k - nl - 2]);
        } else {
            assert(body_part[k] == children_chars(f.children)[k - nl - 2 - bl]);
        }
    }
}

/// The lines of a rendered mini-header followed by anything else: one line
/// per field, then the lines of the rest.
pub proof fn lemma_lines_of_fields(fs: Seq<SpecField>, b: Seq<char>, suffix: Seq<u8>)
    requires
        forall|j: int| 0 <= j < fs.len() ==> wf_field(#[trigger] fs[j], b),
    ensures
        spec_lines(encoded(fields_chars(fs)) + suffix) == Seq::new(
            fs.len(),
            |i: int| encoded(field_line_chars(fs[i])),
        ) + spec_lines(suffix),
    decreases fs.len(),
{
    if fs.len() == 0 {
        assert(encoded(fields_chars(fs)) =~= Seq::<u8>::empty());
        assert(encoded(fields_chars(fs)) + suffix =~= suffix);
        assert(Seq::new(0, |i: int| encoded(field_line_chars(fs[i]))) + spec_lines(suffix)
            =~= spec_lines(suffix));
    } else {
        let f0 = fs[0];
        assert(wf_field(f0, b));
        lemma_field_line_clean(f0, b);
        let l0 = encoded(field_line_chars(f0));
        assert(fields_chars(fs) =~= field_line_chars(f0) + fields_chars(fs.drop_first()));
        lemma_encoded_concat(field_line_chars(f0), fields_chars(fs.drop_first()));
        assert(encoded(fields_chars(fs)) + suffix =~= l0 + (encoded(
            fields_chars(fs.drop_first()),
        ) + suffix));
        assert(('\n' as u8) == 10u8);
        assert(l0.last() == ('\n' as u8));
        assert(l0.last() == 10u8);
        assert forall|k: int| 0 <= k < l0.len() - 1 implies l0[k] != 10u8 by {
            let c = field_line_chars(f0)[k];
            assert(l0[k] == (c as u8));
            if k < l0.len() - 2 {
                assert(32 <= (c as u32) && (c as u32) < 127);
                lemma_latin1_roundtrip(c);
                if l0[k] == 10u8 {
                    assert(((c as u8) as char) == c);
                    assert(((10u8) as char) == c);
                    assert((c as u32) == 10);
                }
            } else {
                assert(c == '\r');
                assert(('\r' as u8) == 13u8);
            }
        }
        lemma_lines_concat(l0, encoded(fields_chars(fs.drop_first())) + suffix);
        lemma_lines_single(l0);
        assert forall|j: int|
            0 <= j < fs.drop_first().len() implies wf_field(#[trigger] fs.drop_first()[j], b) by {
            assert(fs.drop_first()[j] == fs[j + 1]);
        }
        lemma_lines_of_fields(fs.drop_first(), b, suffix);
        assert(spec_lines(l0 + (encoded(fields_chars(fs.drop_first())) + suffix)) =~= Seq::new(
            fs.len(),
            |i: int| encoded(field_line_chars(fs[i])),
        ) + spec_lines(suffix));
        assert(encoded(fields_chars(fs)) + suffix =~= l0 + (encoded(fields_chars(fs.drop_first()))
            + suffix));
    }
}


/// An absent element is at no index.
pub proof fn lemma_absent<T>(s: Seq<T>, x: T)
    requires
        !s.contains(x),
    ensures
        forall|k: int| 0 <= k < s.len() ==> s[k] != x,
{
    assert forall|k: int| 0 <= k < s.len() implies s[k] != x by {
        if s[k] == x {
            assert(s.contains(x));
        }
    }
}

pub proof fn lemma_find_at<T>(s: Seq<T>, x: T, i: int)
    requires
        0 <= i < s.len(),
        s[i] == x,
        forall|k: int| 0 <= k < i ==> s[k] != x,
    ensures
        spec_find(s, x) == Some(i),
{
    lemma_spec_find(s, x);
    match spec_find(s, x) {
        None => {
            assert(s[i] != x);
        },
        Some(m) => {
            if m < i {
                assert(s[m] != x);
            } else if m > i {
                assert(s[i] != x);
            }
        },
    }
}

pub proof fn lemma_find_absent<T>(s: Seq<T>, x: T)
    requires
        forall|k: int| 0 <= k < s.len() ==> s[k] != x,
    ensures
        spec_find(s, x) is None,
{
    lemma_spec_find(s, x);
    match spec_find(s, x) {
        None => {},
        Some(m) => {
            assert(s[m] != x);
        },
    }
}

/// Printable characters other than the space are not whitespace.
pub proof fn lemma_clean_not_ws(c: char)
    requires
        32 <= (c as u32) < 127,
        c != ' ',
    ensures
        !is_ws(c),
{
    assert(('\t' as u32) == 9);
    assert(('\r' as u32) == 13);
    assert(('\n' as u32) == 10);
}

/// Printable text with non-space ends is already trimmed.
pub proof fn lemma_trim_clean(s: Seq<char>)
    requires
        clean_text(s),
        s.len() > 0 ==> s[0] != ' ' && s.last() != ' ',
    ensures
        spec_trim(s) == s,
{
    if s.len() == 0 {
        assert(spec_trim(s) == s);
    } else {
        lemma_clean_not_ws(s[0]);
        crate::server::http::model::lemma_trim_front_exact(s, 0);
        assert(s.subrange(0, s.len() as int) =~= s);
        lemma_clean_not_ws(s.last());
        crate::server::http::model::lemma_trim_back_exact(s, s.len() as int);
    }
}

/// The rendered segment of one attribute, before trimming.
pub open spec fn raw_seg(c: SpecFieldSimple) -> Seq<char> {
    seq![' '] + c.name + seq!['=', '"'] + c.body + seq!['"']
}

/// The rendered segment of one attribute, after trimming.
pub open spec fn trimmed_seg(c: SpecFieldSimple) -> Seq<char> {
    c.name + seq!['=', '"'] + c.body + seq!['"']
}

pub proof fn lemma_trim_raw_seg(c: SpecFieldSimple)
    requires
        wf_child(c),
    ensures
        spec_trim(raw_seg(c)) == trimmed_seg(c),
{
    let s = raw_seg(c);
    let t = trimmed_seg(c);
    assert(is_ws(s[0]));
    assert(s[1] == t[0]);
    if c.name.len() > 0 {
        assert(t[0] == c.name[0]);
        lemma_clean_not_ws(c.name[0]);
    } else {
        assert(t[0] == '=');
        assert(('=' as u32) == 61);
        lemma_clean_not_ws('=');
    }
    crate::server::http::model::lemma_trim_front_exact(s, 1);
    assert(s.subrange(1, s.len() as int) =~= t);
    assert(t.last() == '"');
    assert(('"' as u32) == 34);
    lemma_clean_not_ws('"');
    crate::server::http::model::lemma_trim_back_exact(t, t.len() as int);
    assert(t.subrange(0, t.len() as int) =~= t);
}

/// A rendered attribute segment parses back to the attribute itself.
pub proof fn lemma_parse_child_seg(c: SpecFieldSimple)
    requires
        wf_child(c),
    ensures
        spec_parse_arg(trimmed_seg(c)) == Some(c),
{
    let t = trimmed_seg(c);
    let nl = c.name.len() as int;
    let vl = c.body.len() as int;
    lemma_absent(c.name, ':');
    lemma_absent(c.name, '=');
    lemma_absent(c.body, ':');
    assert forall|k: int| 0 <= k < t.len() implies t[k] != ':' by {
        if k < nl {
            assert(t[k] == c.name[k]);
        } else if k == nl {
            assert(t[k] == '=');
        } else if k == nl + 1 {
            assert(t[k] == '"');
        } else if k < nl + 2 + vl {
            assert(t[k] == c.body[k - nl - 2]);
        } else {
            assert(t[k] == '"');
        }
    }
    lemma_find_absent(t, ':');
    assert(t[nl] == '=');
    assert forall|k: int| 0 <= k < nl implies t[k] != '=' by {
        assert(t[k] == c.name[k]);
    }
    lemma_find_at(t, '=', nl);
    assert(t.subrange(0, nl) =~= c.name);
    let after = t.subrange(nl + 1, t.len() as int);
    assert(after =~= seq!['"'] + c.body + seq!['"']);
    assert(('"' as u32) == 34);
    lemma_clean_not_ws('"');
    crate::server::http::model::lemma_trim_front_exact(after, 0);
    assert(after.subrange(0, after.len() as int) =~= after);
    assert(after.last() == '"');
    crate::server::http::model::lemma_trim_back_exact(after, after.len() as int);
    assert(spec_trim(after) == after);
    assert(after.len() >= 2);
    assert(after[0] == '"');
    assert(after.subrange(1, after.len() - 1) =~= c.body);
}

/// The attributes parse back, segment by segment.
pub proof fn lemma_parse_children_segs(children: Seq<SpecFieldSimple>)
    requires
        forall|j: int| 0 <= j < children.len() ==> wf_child(#[trigger] children[j]),
    ensures
        spec_parse_children(Seq::new(children.len() as nat, |i: int| trimmed_seg(children[i])))
            == Ok::<Seq<SpecFieldSimple>, SpecRequestError>(children),
    decreases children.len(),
{
    let segs = Seq::new(children.len() as nat, |i: int| trimmed_seg(children[i]));
    if children.len() == 0 {
        assert(children =~= Seq::<SpecFieldSimple>::empty());
    } else {
        lemma_parse_child_seg(children[0]);
        assert(segs[0] == trimmed_seg(children[0]));
        assert forall|j: int|
            0 <= j < children.drop_first().len() implies wf_child(
            #[trigger] children.drop_first()[j],
        ) by {
            assert(children.drop_first()[j] == children[j + 1]);
        }
        lemma_parse_children_segs(children.drop_first());
        assert(segs.drop_first() =~= Seq::new(
            children.drop_first().len() as nat,
            |i: int| trimmed_seg(children.drop_first()[i]),
        ));
        assert(seq![children[0]] + children.drop_first() =~= children);
    }
}

/// Splitting a value and its rendered attributes on `;` gives back the
/// value and one raw segment per attribute.
pub proof fn lemma_split_cc(first: Seq<char>, children: Seq<SpecFieldSimple>)
    requires
        !first.contains(';'),
        forall|j: int| 0 <= j < children.len() ==> wf_child(#[trigger] children[j]),
    ensures
        spec_split(first + children_chars(children), ';') == seq![first] + Seq::new(
            children.len() as nat,
            |i: int| raw_seg(children[i]),
        ),
    decreases children.len(),
{
    let s = first + children_chars(children);
    lemma_absent(first, ';');
    if children.len() == 0 {
        assert(s =~= first);
        lemma_split_none(first, ';');
        assert(seq![first] + Seq::new(0, |i: int| raw_seg(children[i])) =~= seq![first]);
    } else {
        let c0 = children[0];
        let fl = first.len() as int;
        assert(children_chars(children) =~= (seq![';', ' '] + c0.name + seq!['=', '"'] + c0.body
            + seq!['"']) + children_chars(children.drop_first()));
        assert(s[fl] == ';');
        assert forall|k: int| 0 <= k < fl implies s[k] != ';' by {
            assert(s[k] == first[k]);
        }
        lemma_split_step(s, ';', fl);
        assert(s.subrange(0, fl) =~= first);
        let rest = s.subrange(fl + 1, s.len() as int);
        assert(rest =~= raw_seg(c0) + children_chars(children.drop_first()));
        lemma_absent(c0.name, ';');
        lemma_absent(c0.body, ';');
        assert(!raw_seg(c0).contains(';')) by {
            let r = raw_seg(c0);
            let nl = c0.name.len() as int;
            let vl = c0.body.len() as int;
            if r.contains(';') {
                let k = choose|k: int| 0 <= k < r.len() && r[k] == ';';
                if k == 0 {
                    assert(r[k] == ' ');
                } else if k < 1 + nl {
                    assert(r[k] == c0.name[k - 1]);
                } else if k < 3 + nl {
                    assert(r[k] == seq!['=', '"'][k - 1 - nl]);
                } else if k < 3 + nl + vl {
                    assert(r[k] == c0.body[k - 3 - nl]);
                } else {
                    assert(r[k] == '"');
                }
            }
        }
        assert forall|j: int|
            0 <= j < children.drop_first().len() implies wf_child(
            #[trigger] children.drop_first()[j],
        ) by {
            assert(children.drop_first()[j] == children[j + 1]);
        }
        lemma_split_cc(raw_seg(c0), children.drop_first());
        assert(spec_split(s, ';') =~= seq![first] + Seq::new(
            children.len() as nat,
            |i: int| raw_seg(children[i]),
        ));
    }
}

/// A rendered field line parses back to the field itself and leaves the
/// state alone.
#[verifier::rlimit(60)]
pub proof fn lemma_parse_field_line(st: SpecRequestState, f: SpecField, b: Seq<char>)
    requires
        wf_field(f, b),
    ensures
        spec_parse_normal(st, encoded(field_line_chars(f))) == Ok::<
            (SpecField, SpecRequestState),
            SpecRequestError,
        >((f, st)),
{
    let chars = field_line_chars(f);
    let line = encoded(chars);
    let name = f.this.name;
    let body = f.this.body;
    let cc = children_chars(f.children);
    let nl = name.len() as int;
    let bl = body.len() as int;
    lemma_cc_clean(f.children);
    assert(chars =~= name + seq![':', ' '] + body + cc + seq!['\r', '\n']);
    assert forall|k: int| 0 <= k < chars.len() implies ((#[trigger] chars[k]) as u32) < 256 by {
        if k < nl {
            assert(chars[k] == name[k]);
        } else if k < nl + 2 {
            assert(chars[k] == seq![':', ' '][k - nl]);
        } else if k < nl + 2 + bl {
            assert(chars[k] == body[k - nl - 2]);
        } else if k < nl + 2 + bl + cc.len() {
            assert(chars[k] == cc[k - nl - 2 - bl]);
        } else {
            assert(chars[k] == seq!['\r', '\n'][k - nl - 2 - bl - cc.len()]);
            assert(('\r' as u32) == 13 && ('\n' as u32) == 10);
        }
    }
    lemma_decoded_encoded(chars);
    lemma_absent(name, ':');
    assert(chars[nl] == ':');
    assert forall|k: int| 0 <= k < nl implies chars[k] != ':' by {
        assert(chars[k] == name[k]);
    }
    lemma_find_at(chars, ':', nl);
    assert(chars.subrange(0, nl) =~= name);
    let after = chars.subrange(nl + 1, chars.len() as int);
    assert(after =~= seq![' '] + body + cc + seq!['\r', '\n']);
    let body0 = spec_trim(after);
    if bl == 0 && f.children.len() == 0 {
        assert(cc =~= Seq::<char>::empty());
        assert(after =~= seq![' ', '\r', '\n']);
        assert(is_ws(after[0]) && is_ws(after[1]) && is_ws(after[2]));
        crate::server::http::model::lemma_trim_front_exact(after, 3);
        assert(after.subrange(3, 3) =~= Seq::<char>::empty());
        assert(spec_trim_back(Seq::<char>::empty()) == Seq::<char>::empty());
        assert(body0 =~= body + cc);
    } else {
        assert(is_ws(after[0]));
        if bl > 0 {
            assert(after[1] == body[0]);
            lemma_clean_not_ws(body[0]);
        } else {
            assert(f.children.len() > 0);
            assert(cc[0] == ';');
            assert(after[1] == cc[0]);
            assert((';' as u32) == 59);
            lemma_clean_not_ws(';');
        }
        crate::server::http::model::lemma_trim_front_exact(after, 1);
        let t1 = after.subrange(1, after.len() as int);
        assert(t1 =~= body + cc + seq!['\r', '\n']);
        let k = bl + cc.len() as int;
        assert(is_ws(t1[k]) && is_ws(t1[k + 1]));
        if f.children.len() > 0 {
            lemma_cc_last(f.children);
            assert(t1[k - 1] == cc.last());
            lemma_clean_not_ws('"');
        } else {
            assert(k == bl);
            assert(t1[k - 1] == body.last());
            lemma_clean_not_ws(body.last());
        }
        crate::server::http::model::lemma_trim_back_exact(t1, k);
        assert(t1.subrange(0, k) =~= body + cc);
        assert(body0 =~= body + cc);
    }
    assert(body0 == body + cc);
    if body0.len() >= 2 {
        assert(body0[0] != '"') by {
            if bl > 0 {
                assert(body0[0] == body[0]);
            } else {
                assert(f.children.len() > 0);
                assert(body0[0] == cc[0]);
                assert(cc[0] == ';');
            }
        }
    }
    let simple = SpecFieldSimple { name, body: body0 };
    assert(spec_parse_arg(decoded(line)) == Some(simple));
    if name == "User-Agent"@ {
        assert(f.children.len() == 0);
        assert(cc =~= Seq::<char>::empty());
        assert(body0 =~= body);
        assert(simple == f.this);
        assert(SpecField { this: simple, children: Seq::empty() } =~~= f);
    } else {
        lemma_absent(body, ';');
        lemma_split_cc(body, f.children);
        let raws = seq![body] + Seq::new(f.children.len() as nat, |i: int| raw_seg(f.children[i]));
        assert(spec_split(body0, ';') == raws);
        let segs = trimmed_segments(body0);
        assert(segs.len() == raws.len());
        lemma_trim_clean(body);
        assert(segs[0] == spec_trim(body));
        assert(segs[0] == body);
        assert forall|j: int| 0 <= j < f.children.len() implies segs[j + 1] == trimmed_seg(
            f.children[j],
        ) by {
            assert(raws[j + 1] == raw_seg(f.children[j]));
            assert(segs[j + 1] == spec_trim(raws[j + 1]));
            lemma_trim_raw_seg(f.children[j]);
        }
        assert(segs.drop_first() =~= Seq::new(
            f.children.len() as nat,
            |i: int| trimmed_seg(f.children[i]),
        ));
        lemma_parse_children_segs(f.children);
        assert(spec_parse_children(segs.drop_first()) == Ok::<
            Seq<SpecFieldSimple>,
            SpecRequestError,
        >(f.children));
        let field = SpecField {
            this: SpecFieldSimple { name, body: segs[0] },
            children: f.children,
        };
        assert(field =~~= f);
        assert(!(name == "Content-Type"@ && starts_with(segs[0], "multipart"@)));
    }
}

/// The rendered attributes end on the closing quote.
pub proof fn lemma_cc_last(children: Seq<SpecFieldSimple>)
    requires
        children.len() > 0,
    ensures
        children_chars(children).last() == '"',
    decreases children.len(),
{
    let cc = children_chars(children);
    let piece = seq![';', ' '] + children[0].name + seq!['=', '"'] + children[0].body + seq!['"'];
    assert(cc =~= piece + children_chars(children.drop_first()));
    if children.drop_first().len() == 0 {
        assert(children_chars(children.drop_first()) =~= Seq::<char>::empty());
        assert(cc.last() == piece.last());
    } else {
        lemma_cc_last(children.drop_first());
        assert(cc.last() == children_chars(children.drop_first()).last());
    }
}


/// Does `line` read `--` followed by exactly the boundary `b`?
pub open spec fn matches_boundary(b: Seq<char>, line: Seq<u8>) -> bool {
    &&& line.len() >= 2
    &&& line[0] == 45u8
    &&& line[1] == 45u8
    &&& line.len() - 2 >= b.len()
    &&& decoded(line.subrange(2, 2 + b.len() as int)) == b
}

/// No line of the payload, nor of the terminator appended to it, can be
/// mistaken for a boundary line.
pub open spec fn payload_safe(payload: Seq<u8>, b: Seq<char>) -> bool {
    forall|i: int|
        0 <= i < spec_lines(payload + spec_crlf()).len() ==> !matches_boundary(
            b,
            #[trigger] spec_lines(payload + spec_crlf())[i],
        )
}

/// A rendered field line never matches the boundary.
pub proof fn lemma_field_line_not_boundary(f: SpecField, b: Seq<char>)
    requires
        wf_field(f, b),
    ensures
        !matches_boundary(b, encoded(field_line_chars(f))),
{
    let chars = field_line_chars(f);
    let line = encoded(chars);
    lemma_field_line_clean(f, b);
    if matches_boundary(b, line) {
        assert forall|k: int| 0 <= k < chars.len() implies ((#[trigger] chars[k]) as u32)
            < 256 by {
            if k < chars.len() - 2 {
            } else if k == chars.len() - 2 {
                assert(chars[k] == '\r');
            } else {
                assert(chars[k] == '\n');
            }
        }
        lemma_decoded_encoded(chars);
        assert(('-' as u32) == 45);
        assert(chars[0] == ((line[0]) as char));
        assert(((45u8) as char) == '-');
        assert(chars[0] == '-' && chars[1] == '-');
        let pre = seq!['-', '-'] + b;
        assert forall|k: int| 0 <= k < pre.len() implies chars[k] == pre[k] by {
            if k >= 2 {
                assert(decoded(line.subrange(2, 2 + b.len() as int))[k - 2] == b[k - 2]);
                assert(line.subrange(2, 2 + b.len() as int)[k - 2] == line[k]);
                assert(decoded(line)[k] == (line[k] as char));
            }
        }
        assert(chars.subrange(0, pre.len() as int) =~= pre);
        assert(starts_with(chars, pre));
    }
}

/// The fields of a mini-header pushed into the open part, one after the
/// other.
pub open spec fn push_fields(st: SpecRequestState, fs: Seq<SpecField>) -> SpecRequestState
    decreases fs.len(),
{
    if fs.len() == 0 {
        st
    } else {
        push_fields(crate::server::http::model::push_field_to_last(st, fs[0]), fs.drop_first())
    }
}

/// The rendered lines of a mini-header, one per field.
pub open spec fn field_lines(fs: Seq<SpecField>) -> Seq<Seq<u8>> {
    Seq::new(fs.len() as nat, |i: int| encoded(field_line_chars(fs[i])))
}

/// Feeding the rendered mini-header lines parses each field back and stores
/// it in the open part; nothing else changes.
pub proof fn lemma_feed_fields(
    req: SpecRequest,
    d: Seq<SpecDataPart>,
    p: SpecDataPart,
    b: Seq<char>,
    fs: Seq<SpecField>,
)
    requires
        forall|j: int| 0 <= j < fs.len() ==> wf_field(#[trigger] fs[j], b),
    ensures
        spec_feed(
            req,
            SpecRequestState {
                boundary: Some(b),
                is_data_part: true,
                is_data_part_header: true,
                data: d.push(p),
            },
            field_lines(fs),
        ) == Ok::<(SpecRequest, SpecRequestState), SpecRequestError>(
            (
                req,
                SpecRequestState {
                    boundary: Some(b),
                    is_data_part: true,
                    is_data_part_header: true,
                    data: d.push(SpecDataPart { fields: p.fields + fs, data: p.data }),
                },
            ),
        ),
    decreases fs.len(),
{
    let st = SpecRequestState {
        boundary: Some(b),
        is_data_part: true,
        is_data_part_header: true,
        data: d.push(p),
    };
    if fs.len() == 0 {
        assert(field_lines(fs) =~= Seq::<Seq<u8>>::empty());
        assert(p.fields + fs =~= p.fields);
        assert(SpecDataPart { fields: p.fields + fs, data: p.data } =~~= p);
        assert(st =~~= SpecRequestState {
            boundary: Some(b),
            is_data_part: true,
            is_data_part_header: true,
            data: d.push(SpecDataPart { fields: p.fields + fs, data: p.data }),
        });
    } else {
        let f0 = fs[0];
        assert(wf_field(f0, b));
        let l0 = encoded(field_line_chars(f0));
        assert(field_lines(fs)[0] == l0);
        lemma_field_line_not_boundary(f0, b);
        assert(!is_boundary_line(st, l0));
        lemma_field_line_clean(f0, b);
        assert(l0.len() >= 4);
        assert(l0 != spec_crlf());
        lemma_parse_field_line(st, f0, b);
        assert(spec_parse_normal(st, l0) == Ok::<
            (SpecField, SpecRequestState),
            SpecRequestError,
        >((f0, st)));
        let p1 = SpecDataPart { fields: p.fields.push(f0), data: p.data };
        let st1 = crate::server::http::model::push_field_to_last(st, f0);
        assert(st.data.last() == p);
        assert(st.data.update(st.data.len() - 1, p1) =~= d.push(p1));
        assert(st1 =~~= SpecRequestState {
            boundary: Some(b),
            is_data_part: true,
            is_data_part_header: true,
            data: d.push(p1),
        });
        assert forall|j: int| 0 <= j < fs.drop_first().len() implies wf_field(
            #[trigger] fs.drop_first()[j],
            b,
        ) by {
            assert(fs.drop_first()[j] == fs[j + 1]);
        }
        lemma_feed_fields(req, d, p1, b, fs.drop_first());
        assert(p1.fields + fs.drop_first() =~= p.fields + fs);
        assert(field_lines(fs).drop_first() =~= field_lines(fs.drop_first()));
        assert(spec_parse_single(st, l0) == Ok::<
            (Option<SpecField>, SpecRequestState),
            SpecRequestError,
        >((None, st1)));
    }
}

/// All the lines of a chunk, joined back together.
pub open spec fn cat_lines(ls: Seq<Seq<u8>>) -> Seq<u8>
    decreases ls.len(),
{
    if ls.len() == 0 {
        Seq::empty()
    } else {
        ls[0] + cat_lines(ls.drop_first())
    }
}

/// Joining the lines of a chunk gives the chunk back.
pub proof fn lemma_cat_lines(s: Seq<u8>)
    ensures
        cat_lines(spec_lines(s)) == s,
    decreases s.len(),
{
    if s.len() == 0 {
        assert(cat_lines(spec_lines(s)) =~= s);
    } else {
        lemma_spec_find(s, 10u8);
        match spec_find(s, 10u8) {
            None => {
                assert(spec_lines(s) =~= seq![s]);
                assert(spec_lines(s) == seq![s]);
                assert(seq![s].drop_first() =~= Seq::<Seq<u8>>::empty());
                assert(cat_lines(Seq::<Seq<u8>>::empty()) == Seq::<u8>::empty());
                assert(seq![s][0] == s);
                assert(cat_lines(seq![s]) == s + cat_lines(seq![s].drop_first()));
                assert(s + Seq::<u8>::empty() =~= s);
            },
            Some(i) => {
                let rest = s.subrange(i + 1, s.len() as int);
                lemma_cat_lines(rest);
                assert(spec_lines(s) == seq![s.subrange(0, i + 1)] + spec_lines(rest));
                assert((seq![s.subrange(0, i + 1)] + spec_lines(rest))[0] == s.subrange(0, i + 1));
                assert((seq![s.subrange(0, i + 1)] + spec_lines(rest)).drop_first() =~= spec_lines(
                    rest,
                ));
                assert(spec_lines(s).drop_first() == spec_lines(rest));
                assert(cat_lines(spec_lines(s)) == s.subrange(0, i + 1) + cat_lines(
                    spec_lines(rest),
                ));
                assert(s.subrange(0, i + 1) + rest =~= s);
            },
        }
    }
}

/// Feeding payload lines appends their bytes verbatim to the open part.
pub proof fn lemma_feed_payload(
    req: SpecRequest,
    d: Seq<SpecDataPart>,
    p: SpecDataPart,
    b: Seq<char>,
    pls: Seq<Seq<u8>>,
)
    requires
        forall|i: int| 0 <= i < pls.len() ==> !matches_boundary(b, #[trigger] pls[i]),
    ensures
        spec_feed(
            req,
            SpecRequestState {
                boundary: Some(b),
                is_data_part: true,
                is_data_part_header: false,
                data: d.push(p),
            },
            pls,
        ) == Ok::<(SpecRequest, SpecRequestState), SpecRequestError>(
            (
                req,
                SpecRequestState {
                    boundary: Some(b),
                    is_data_part: true,
                    is_data_part_header: false,
                    data: d.push(SpecDataPart { fields: p.fields, data: p.data + cat_lines(pls) }),
                },
            ),
        ),
    decreases pls.len(),
{
    let st = SpecRequestState {
        boundary: Some(b),
        is_data_part: true,
        is_data_part_header: false,
        data: d.push(p),
    };
    if pls.len() == 0 {
        assert(p.data + cat_lines(pls) =~= p.data);
        assert(SpecDataPart { fields: p.fields, data: p.data + cat_lines(pls) } =~~= p);
        assert(st =~~= SpecRequestState {
            boundary: Some(b),
            is_data_part: true,
            is_data_part_header: false,
            data: d.push(SpecDataPart { fields: p.fields, data: p.data + cat_lines(pls) }),
        });
    } else {
        let l0 = pls[0];
        assert(!matches_boundary(b, l0));
        assert(!is_boundary_line(st, l0));
        let p1 = SpecDataPart { fields: p.fields, data: p.data + l0 };
        let st1 = crate::server::http::model::append_to_last(st, l0);
        assert(st.data.last() == p);
        assert(st.data.update(st.data.len() - 1, p1) =~= d.push(p1));
        assert(st1 =~~= SpecRequestState {
            boundary: Some(b),
            is_data_part: true,
            is_data_part_header: false,
            data: d.push(p1),
        });
        assert forall|i: int| 0 <= i < pls.drop_first().len() implies !matches_boundary(
            b,
            #[trigger] pls.drop_first()[i],
        ) by {
            assert(pls.drop_first()[i] == pls[i + 1]);
        }
        lemma_feed_payload(req, d, p1, b, pls.drop_first());
        assert(p1.data + cat_lines(pls.drop_first()) =~= p.data + cat_lines(pls));
        assert(spec_parse_single(st, l0) == Ok::<
            (Option<SpecField>, SpecRequestState),
            SpecRequestError,
        >((None, st1)));
    }
}


/// The rendered mini-header is ASCII throughout.
pub proof fn lemma_fields_chars_ascii(fs: Seq<SpecField>, b: Seq<char>)
    requires
        forall|j: int| 0 <= j < fs.len() ==> wf_field(#[trigger] fs[j], b),
    ensures
        forall|k: int|
            0 <= k < fields_chars(fs).len() ==> ((#[trigger] fields_chars(fs)[k]) as u32) < 128,
    decreases fs.len(),
{
    if fs.len() > 0 {
        assert(wf_field(fs[0], b));
        lemma_field_line_clean(fs[0], b);
        assert forall|j: int| 0 <= j < fs.drop_first().len() implies wf_field(
            #[trigger] fs.drop_first()[j],
            b,
        ) by {
            assert(fs.drop_first()[j] == fs[j + 1]);
        }
        lemma_fields_chars_ascii(fs.drop_first(), b);
        let fl = field_line_chars(fs[0]);
        let fc = fields_chars(fs);
        assert(fc =~= fl + fields_chars(fs.drop_first()));
        assert forall|k: int| 0 <= k < fc.len() implies ((#[trigger] fc[k]) as u32) < 128 by {
            if k < fl.len() {
                assert(fc[k] == fl[k]);
                if k < fl.len() - 2 {
                } else if k == fl.len() - 2 {
                    assert(fl[k] == '\r');
                } else {
                    assert(fl[k] == '\n');
                }
            } else {
                assert(fc[k] == fields_chars(fs.drop_first())[k - fl.len()]);
            }
        }
    }
}

/// A printable character never encodes to a line feed or a dash.
pub proof fn lemma_clean_byte_is(c: char, x: u8)
    requires
        (c as u32) < 256,
        (c as u8) == x,
    ensures
        (c as u32) == (x as u32),
{
    lemma_latin1_roundtrip(c);
    assert(((c as u8) as char) == c);
    assert((x as char) == c);
}

/// Round trip: one part encoded by the codec, followed by a closing
/// boundary line, decodes back through the classifier to exactly its fields
/// and payload, appended as one finished part; everything else in the state
/// is untouched.
#[verifier::rlimit(100)]
pub proof fn lemma_encode_part_round_trip(
    req: SpecRequest,
    st: SpecRequestState,
    fields: Seq<SpecField>,
    payload: Seq<u8>,
    b: Seq<char>,
)
    requires
        st.boundary == Some(b),
        !st.is_data_part,
        clean_text(b),
        forall|j: int| 0 <= j < fields.len() ==> wf_field(#[trigger] fields[j], b),
        payload_safe(payload, b),
    ensures
        spec_feed(
            req,
            st,
            spec_lines(
                encode_part_bytes(fields, payload, b) + encoded(
                    seq!['-', '-'] + b + seq!['-', '-', '\r', '\n'],
                ),
            ),
        ) == Ok::<(SpecRequest, SpecRequestState), SpecRequestError>(
            (
                req,
                SpecRequestState {
                    boundary: Some(b),
                    is_data_part: false,
                    is_data_part_header: false,
                    data: trim_last_crlf(st).data.push(
                        SpecDataPart { fields, data: payload },
                    ),
                },
            ),
        ),
{
    let bl = b.len() as int;
    let bl_chars = seq!['-', '-'] + b + seq!['\r', '\n'];
    let cl_chars = seq!['-', '-'] + b + seq!['-', '-', '\r', '\n'];
    let blank = seq!['\r', '\n'];
    let prefix = seq!['-', '-'] + b + seq!['\r', '\n'] + fields_chars(fields) + seq![
        '\r',
        '\n',
    ];
    let fc = fields_chars(fields);
    lemma_fields_chars_ascii(fields, b);
    assert forall|k: int| 0 <= k < prefix.len() implies ((#[trigger] prefix[k]) as u32) < 128 by {
        assert(('-' as u32) == 45 && ('\r' as u32) == 13 && ('\n' as u32) == 10);
        if k < 2 {
            assert(prefix[k] == '-');
        } else if k < 2 + bl {
            assert(prefix[k] == b[k - 2]);
        } else if k < 4 + bl {
            assert(prefix[k] == blank[k - 2 - bl]);
        } else if k < 4 + bl + fc.len() {
            assert(prefix[k] == fc[k - 4 - bl]);
        } else {
            assert(prefix[k] == blank[k - 4 - bl - fc.len()]);
        }
    }
    lemma_ascii_utf8(prefix);
    let a_bytes = encoded(bl_chars);
    let f_bytes = encoded(fc);
    let blank_bytes = spec_crlf();
    let p_bytes = payload + spec_crlf();
    let c_bytes = encoded(cl_chars);
    assert(encoded(blank) =~= blank_bytes) by {
        assert(encoded(blank)[0] == ('\r' as u8));
        assert(encoded(blank)[1] == ('\n' as u8));
    }
    assert(prefix =~= (bl_chars + fc) + blank);
    lemma_encoded_concat(bl_chars + fc, blank);
    lemma_encoded_concat(bl_chars, fc);
    assert(encoded(prefix) =~= a_bytes + f_bytes + blank_bytes);
    let total = encode_part_bytes(fields, payload, b) + c_bytes;
    assert(total =~= a_bytes + (f_bytes + (blank_bytes + (p_bytes + c_bytes))));
    // The lines of the whole byte sequence.
    assert(('\n' as u8) == 10u8 && ('\r' as u8) == 13u8 && ('-' as u8) == 45u8);
    assert(a_bytes.len() == 4 + bl);
    assert(a_bytes.last() == ('\n' as u8)) by {
        assert(bl_chars.last() == '\n');
    }
    assert forall|k: int| 0 <= k < a_bytes.len() - 1 implies a_bytes[k] != 10u8 by {
        assert(a_bytes[k] == (bl_chars[k] as u8));
        if k < 2 {
            assert(bl_chars[k] == '-');
        } else if k < 2 + bl {
            assert(bl_chars[k] == b[k - 2]);
            if a_bytes[k] == 10u8 {
                lemma_clean_byte_is(b[k - 2], 10u8);
            }
        } else {
            assert(bl_chars[k] == '\r');
        }
    }
    lemma_lines_single(a_bytes);
    lemma_lines_concat(a_bytes, f_bytes + (blank_bytes + (p_bytes + c_bytes)));
    lemma_lines_of_fields(fields, b, blank_bytes + (p_bytes + c_bytes));
    assert(blank_bytes.last() == 10u8);
    assert forall|k: int| 0 <= k < blank_bytes.len() - 1 implies blank_bytes[k] != 10u8 by {
        assert(blank_bytes[k] == 13u8);
    }
    lemma_lines_single(blank_bytes);
    lemma_lines_concat(blank_bytes, p_bytes + c_bytes);
    assert(p_bytes.last() == 10u8) by {
        assert(p_bytes[p_bytes.len() - 1] == spec_crlf()[1]);
    }
    lemma_lines_concat(p_bytes, c_bytes);
    assert(c_bytes.len() == 6 + bl);
    assert(c_bytes.last() == ('\n' as u8)) by {
        assert(cl_chars.last() == '\n');
    }
    assert forall|k: int| 0 <= k < c_bytes.len() - 1 implies c_bytes[k] != 10u8 by {
        assert(c_bytes[k] == (cl_chars[k] as u8));
        if k < 2 {
            assert(cl_chars[k] == '-');
        } else if k < 2 + bl {
            assert(cl_chars[k] == b[k - 2]);
            if c_bytes[k] == 10u8 {
                lemma_clean_byte_is(b[k - 2], 10u8);
            }
        } else {
            assert(cl_chars[k] == seq!['-', '-', '\r', '\n'][k - 2 - bl]);
        }
    }
    lemma_lines_single(c_bytes);
    let l2 = field_lines(fields);
    let l4 = spec_lines(p_bytes);
    assert(spec_lines(total) =~= seq![a_bytes] + (l2 + (seq![blank_bytes] + (l4 + seq![
        c_bytes,
    ]))));
    // Step one: the opening boundary line.
    assert(a_bytes[0] == 45u8 && a_bytes[1] == 45u8) by {
        assert(bl_chars[0] == '-' && bl_chars[1] == '-');
    }
    assert(a_bytes.subrange(2, 2 + bl) =~= encoded(b)) by {
        assert forall|j: int| 0 <= j < bl implies a_bytes.subrange(2, 2 + bl)[j] == encoded(
            b,
        )[j] by {
            assert(a_bytes[2 + j] == (bl_chars[2 + j] as u8));
            assert(bl_chars[2 + j] == b[j]);
        }
    }
    assert forall|k: int| 0 <= k < b.len() implies ((#[trigger] b[k]) as u32) < 256 by {}
    lemma_decoded_encoded(b);
    assert(is_boundary_line(st, a_bytes));
    let a_rest = a_bytes.subrange(2 + bl, a_bytes.len() as int);
    assert(a_rest =~= spec_crlf()) by {
        assert(a_bytes[2 + bl] == ('\r' as u8));
        assert(a_bytes[3 + bl] == ('\n' as u8));
    }
    assert(a_rest[0] == 13u8);
    assert(!(a_rest.len() >= 2 && a_rest[0] == 45u8 && a_rest[1] == 45u8));
    let d0 = trim_last_crlf(st).data;
    let empty_part = SpecDataPart { fields: Seq::empty(), data: Seq::empty() };
    let st1 = SpecRequestState {
        boundary: Some(b),
        is_data_part: true,
        is_data_part_header: true,
        data: d0.push(empty_part),
    };
    assert(trim_last_crlf(st).boundary == Some(b));
    assert(spec_parse_single(st, a_bytes) == Ok::<
        (Option<SpecField>, SpecRequestState),
        SpecRequestError,
    >((None, st1)));
    assert(seq![a_bytes].drop_first() =~= Seq::<Seq<u8>>::empty());
    assert(seq![a_bytes][0] == a_bytes);
    assert(spec_feed(req, st1, Seq::<Seq<u8>>::empty()) == Ok::<
        (SpecRequest, SpecRequestState),
        SpecRequestError,
    >((req, st1)));
    assert(spec_feed(req, st, seq![a_bytes]) == Ok::<
        (SpecRequest, SpecRequestState),
        SpecRequestError,
    >((req, st1)));
    // Step two: the mini-header lines.
    lemma_feed_fields(req, d0, empty_part, b, fields);
    let p2 = SpecDataPart { fields: Seq::empty() + fields, data: Seq::empty() };
    let st2 = SpecRequestState {
        boundary: Some(b),
        is_data_part: true,
        is_data_part_header: true,
        data: d0.push(p2),
    };
    assert(spec_feed(req, st1, l2) == Ok::<(SpecRequest, SpecRequestState), SpecRequestError>(
        (req, st2),
    ));
    // Step three: the blank separator.
    assert(blank_bytes[0] == 13u8);
    assert(!is_boundary_line(st2, blank_bytes));
    assert(blank_bytes == spec_crlf());
    let st3 = SpecRequestState {
        boundary: Some(b),
        is_data_part: true,
        is_data_part_header: false,
        data: d0.push(p2),
    };
    assert(spec_parse_single(st2, blank_bytes) == Ok::<
        (Option<SpecField>, SpecRequestState),
        SpecRequestError,
    >((None, st3)));
    assert(seq![blank_bytes].drop_first() =~= Seq::<Seq<u8>>::empty());
    assert(seq![blank_bytes][0] == blank_bytes);
    assert(spec_feed(req, st3, Seq::<Seq<u8>>::empty()) == Ok::<
        (SpecRequest, SpecRequestState),
        SpecRequestError,
    >((req, st3)));
    assert(spec_feed(req, st2, seq![blank_bytes]) == Ok::<
        (SpecRequest, SpecRequestState),
        SpecRequestError,
    >((req, st3)));
    // Step four: the payload lines.
    assert forall|i: int| 0 <= i < l4.len() implies !matches_boundary(b, #[trigger] l4[i]) by {}
    lemma_feed_payload(req, d0, p2, b, l4);
    lemma_cat_lines(p_bytes);
    let p4 = SpecDataPart { fields: p2.fields, data: Seq::empty() + p_bytes };
    let st4 = SpecRequestState {
        boundary: Some(b),
        is_data_part: true,
        is_data_part_header: false,
        data: d0.push(p4),
    };
    assert(spec_feed(req, st3, l4) == Ok::<(SpecRequest, SpecRequestState), SpecRequestError>(
        (req, st4),
    )) by {
        assert(SpecDataPart {
            fields: p2.fields,
            data: p2.data + cat_lines(l4),
        } =~~= p4);
    }
    // Step five: the closing boundary line.
    assert(c_bytes[0] == 45u8 && c_bytes[1] == 45u8) by {
        assert(cl_chars[0] == '-' && cl_chars[1] == '-');
    }
    assert(c_bytes.subrange(2, 2 + bl) =~= encoded(b)) by {
        assert forall|j: int| 0 <= j < bl implies c_bytes.subrange(2, 2 + bl)[j] == encoded(
            b,
        )[j] by {
            assert(c_bytes[2 + j] == (cl_chars[2 + j] as u8));
            assert(cl_chars[2 + j] == b[j]);
        }
    }
    assert(is_boundary_line(st4, c_bytes));
    let c_rest = c_bytes.subrange(2 + bl, c_bytes.len() as int);
    assert(c_rest.len() == 4);
    assert(c_rest[0] == 45u8 && c_rest[1] == 45u8) by {
        assert(c_bytes[2 + bl] == (cl_chars[2 + bl] as u8));
        assert(cl_chars[2 + bl] == '-');
        assert(c_bytes[3 + bl] == (cl_chars[3 + bl] as u8));
        assert(cl_chars[3 + bl] == '-');
    }
    assert(ends_with(p4.data, spec_crlf())) by {
        assert(p4.data =~= p_bytes);
        assert(p_bytes.subrange(p_bytes.len() - 2, p_bytes.len() as int) =~= spec_crlf());
    }
    let trimmed = SpecDataPart { fields: p4.fields, data: payload };
    assert(crate::server::http::model::trim_part_crlf(p4) =~~= trimmed) by {
        assert(p4.data =~= payload + spec_crlf());
        assert(p4.data.subrange(0, p4.data.len() - 2) =~= payload);
    }
    assert(trim_last_crlf(st4).data =~= d0.push(trimmed)) by {
        assert(st4.data.last() == p4);
        assert(st4.data.update(st4.data.len() - 1, crate::server::http::model::trim_part_crlf(p4))
            =~= d0.push(trimmed));
    }
    let st5 = SpecRequestState {
        boundary: Some(b),
        is_data_part: false,
        is_data_part_header: false,
        data: d0.push(trimmed),
    };
    assert(spec_parse_single(st4, c_bytes) == Ok::<
        (Option<SpecField>, SpecRequestState),
        SpecRequestError,
    >((None, st5))) by {
        assert(trim_last_crlf(st4) =~~= SpecRequestState {
            boundary: Some(b),
            is_data_part: true,
            is_data_part_header: false,
            data: d0.push(trimmed),
        });
    }
    assert(seq![c_bytes].drop_first() =~= Seq::<Seq<u8>>::empty());
    assert(seq![c_bytes][0] == c_bytes);
    assert(spec_feed(req, st5, Seq::<Seq<u8>>::empty()) == Ok::<
        (SpecRequest, SpecRequestState),
        SpecRequestError,
    >((req, st5)));
    assert(spec_feed(req, st4, seq![c_bytes]) == Ok::<
        (SpecRequest, SpecRequestState),
        SpecRequestError,
    >((req, st5)));
    // Chain the five stages.
    lemma_feed_concat(req, st, seq![a_bytes], l2 + (seq![blank_bytes] + (l4 + seq![c_bytes])));
    lemma_feed_concat(req, st1, l2, seq![blank_bytes] + (l4 + seq![c_bytes]));
    lemma_feed_concat(req, st2, seq![blank_bytes], l4 + seq![c_bytes]);
    lemma_feed_concat(req, st3, l4, seq![c_bytes]);
    assert(trimmed =~~= SpecDataPart { fields, data: payload }) by {
        assert(Seq::<SpecField>::empty() + fields =~= fields);
    }
    assert(st5 =~~= SpecRequestState {
        boundary: Some(b),
        is_data_part: false,
        is_data_part_header: false,
        data: trim_last_crlf(st).data.push(SpecDataPart { fields, data: payload }),
    });
}

} // verus!
