//! Small executable text helpers: byte and character searches, trimming,
//! equality, and the byte-to-string decoding the header parser uses.

use vstd::prelude::*;
use vstd::string::StringSliceAdditionalSpecFns;

use crate::server::http::model::{decoded, encoded, is_ws, spec_dec, spec_find, spec_split, spec_trim, starts_with};
use crate::server::http::model::{lemma_spec_find, lemma_spec_rfind, lemma_trim_back_exact, lemma_trim_front_exact, spec_rfind};

verus! {

/// Relies on `String::push`: appends exactly the one character.
#[verifier::external_body]
pub(crate) fn push_char(s: &mut String, c: char)
    ensures
        final(s)@ == old(s)@.push(c),
{
    s.push(c);
}

pub(crate) fn is_ws_char(c: char) -> (r: bool)
    ensures
        r == is_ws(c),
{
    c == ' ' || c == '\t' || c == '\r' || c == '\n'
}

/// Header bytes as text, one character per byte (ISO-8859-1).
pub fn decode_latin1(bytes: &[u8]) -> (r: String)
    ensures
        r@ == decoded(bytes@),
{
    let n = bytes.len();
    let mut r = String::new();
    let mut i: usize = 0;
    while i < n
        invariant
            i <= n,
            n == bytes@.len(),
            r@ =~= decoded(bytes@).take(i as int),
        decreases n - i,
    {
        let b = *vstd::slice::slice_index_get(bytes, i);
        push_char(&mut r, b as char);
        proof {
            assert(decoded(bytes@).take(i + 1) =~= decoded(bytes@).take(i as int).push(
                b as char,
            ));
        }
        i += 1;
    }
    proof {
        assert(decoded(bytes@).take(n as int) =~= decoded(bytes@));
    }
    r
}

/// Character-for-character string equality.
pub fn str_eq(a: &str, b: &str) -> (r: bool)
    ensures
        r == (a@ == b@),
{
    let na = a.unicode_len();
    let nb = b.unicode_len();
    if na != nb {
        return false;
    }
    let mut i: usize = 0;
    while i < na
        invariant
            i <= na,
            na == a@.len(),
            na == b@.len(),
            forall|k: int| 0 <= k < i ==> a@[k] == b@[k],
        decreases na - i,
    {
        if a.get_char(i) != b.get_char(i) {
            return false;
        }
        i += 1;
    }
    proof {
        assert(a@ =~= b@);
    }
    true
}

/// The first occurrence of `c` in `s`, as [`spec_find`] names it.
pub fn find_char(s: &str, c: char) -> (r: Option<usize>)
    ensures
        match r {
            Some(i) => spec_find(s@, c) == Some(i as int),
            None => spec_find(s@, c) is None,
        },
{
    let n = s.unicode_len();
    let mut i: usize = 0;
    while i < n
        invariant
            i <= n,
            n == s@.len(),
            forall|k: int| 0 <= k < i ==> s@[k] != c,
        decreases n - i,
    {
        if s.get_char(i) == c {
            proof {
                lemma_spec_find(s@, c);
            }
            return Some(i);
        }
        i += 1;
    }
    proof {
        lemma_spec_find(s@, c);
    }
    None
}

/// The last occurrence of `c` in `s`, as [`spec_rfind`] names it.
pub fn rfind_char(s: &str, c: char) -> (r: Option<usize>)
    ensures
        match r {
            Some(i) => spec_rfind(s@, c) == Some(i as int),
            None => spec_rfind(s@, c) is None,
        },
{
    let n = s.unicode_len();
    let mut j: usize = n;
    while j > 0
        invariant
            j <= n,
            n == s@.len(),
            forall|k: int| j <= k < n ==> s@[k] != c,
        decreases j,
    {
        if s.get_char(j - 1) == c {
            proof {
                lemma_spec_rfind(s@, c);
                match spec_rfind(s@, c) {
                    Some(m) => {
                        if m < j - 1 {
                            assert(s@[j - 1] != c);
                        } else if m > j - 1 {
                            assert(s@[m] != c);
                        }
                    },
                    None => {
                        assert(s@[j - 1] != c);
                    },
                }
            }
            return Some(j - 1);
        }
        j -= 1;
    }
    proof {
        lemma_spec_rfind(s@, c);
    }
    None
}

/// The first occurrence of `x` in `s` at or after `start`.
pub fn find_byte(s: &[u8], start: usize, x: u8) -> (r: Option<usize>)
    requires
        start <= s@.len(),
    ensures
        match r {
            Some(i) => start <= i < s@.len() && spec_find(s@.skip(start as int), x) == Some(
                i - start,
            ),
            None => spec_find(s@.skip(start as int), x) is None,
        },
{
    let n = s.len();
    let mut i: usize = start;
    while i < n
        invariant
            start <= i <= n,
            n == s@.len(),
            forall|k: int| start <= k < i ==> s@[k] != x,
        decreases n - i,
    {
        if *vstd::slice::slice_index_get(s, i) == x {
            proof {
                lemma_spec_find(s@.skip(start as int), x);
                let t = s@.skip(start as int);
                assert(t[i - start] == s@[i as int]);
                assert forall|k: int| 0 <= k < i - start implies t[k] != x by {
                    assert(t[k] == s@[k + start]);
                }
                if spec_find(t, x) != Some(i - start as int) {
                    match spec_find(t, x) {
                        Some(m) => {
                            if m < i - start {
                                assert(t[m] != x);
                            } else {
                                assert(t[i - start] != x);
                            }
                        },
                        None => {
                            assert(t[i - start] != x);
                        },
                    }
                }
            }
            return Some(i);
        }
        i += 1;
    }
    proof {
        lemma_spec_find(s@.skip(start as int), x);
        let t = s@.skip(start as int);
        if spec_find(t, x) is Some {
            let m = spec_find(t, x)->Some_0;
            assert(t[m] == s@[m + start]);
        }
    }
    None
}

/// Byte-for-byte slice equality.
pub fn bytes_eq(a: &[u8], b: &[u8]) -> (r: bool)
    ensures
        r == (a@ == b@),
{
    let na = a.len();
    let nb = b.len();
    if na != nb {
        return false;
    }
    let mut i: usize = 0;
    while i < na
        invariant
            i <= na,
            na == a@.len(),
            na == b@.len(),
            forall|k: int| 0 <= k < i ==> a@[k] == b@[k],
        decreases na - i,
    {
        if *vstd::slice::slice_index_get(a, i) != *vstd::slice::slice_index_get(b, i) {
            return false;
        }
        i += 1;
    }
    proof {
        assert(a@ =~= b@);
    }
    true
}

/// The bytes of ASCII text, one byte per character.
pub fn ascii_bytes(s: &str) -> (r: Vec<u8>)
    requires
        s.is_ascii(),
    ensures
        r@ == encoded(s@),
{
    proof {
        vstd::string::is_ascii_spec_bytes(s);
        assert(s.spec_bytes() =~= encoded(s@));
    }
    vstd::slice::slice_to_vec(s.as_bytes())
}

/// The decimal digits of `n`, most significant first, as ASCII bytes.
pub fn dec_bytes(n: usize) -> (r: Vec<u8>)
    ensures
        r@ == encoded(spec_dec(n as nat)),
    decreases n,
{
    let ghost enc = encoded(
        spec_dec(n as nat),
    );
    if n < 10 {
        let mut v: Vec<u8> = Vec::new();
        v.push((n as u8) + 48);
        proof {
            assert(enc =~= seq![(n + 48) as u8]);
        }
        v
    } else {
        let mut v = dec_bytes(n / 10);
        v.push(((n % 10) as u8) + 48);
        proof {
            let head = spec_dec((n / 10) as nat);
            assert(enc =~= encoded(head).push(
                ((n % 10) + 48) as u8,
            ));
        }
        v
    }
}

/// Does `s` begin with `p`?
pub fn str_starts_with(s: &str, p: &str) -> (r: bool)
    ensures
        r == starts_with(s@, p@),
{
    let np = p.unicode_len();
    let ns = s.unicode_len();
    if np > ns {
        return false;
    }
    let mut i: usize = 0;
    while i < np
        invariant
            i <= np,
            np == p@.len(),
            ns == s@.len(),
            np <= ns,
            forall|k: int| 0 <= k < i ==> s@[k] == p@[k],
        decreases np - i,
    {
        if s.get_char(i) != p.get_char(i) {
            proof {
                assert(s@.subrange(0, np as int)[i as int] != p@[i as int]);
            }
            return false;
        }
        i += 1;
    }
    proof {
        assert(s@.subrange(0, np as int) =~= p@);
    }
    true
}

/// `s` split on `sep`, segments kept exactly as they stand.
pub fn split_str(s: &str, sep: char) -> (r: Vec<String>)
    ensures
        r@.len() == spec_split(s@, sep).len(),
        forall|i: int| 0 <= i < r@.len() ==> #[trigger] r@[i]@ == spec_split(s@, sep)[i],
    decreases s@.len(),
{
    let n = s.unicode_len();
    match find_char(s, sep) {
        None => {
            let mut v: Vec<String> = Vec::new();
            v.push(String::from_str(s));
            v
        },
        Some(i) => {
            proof {
                lemma_spec_find(s@, sep);
            }
            let first = s.substring_char(0, i);
            let mut rest = split_str(s.substring_char(i + 1, n), sep);
            let mut v: Vec<String> = Vec::new();
            v.push(String::from_str(first));
            v.append(&mut rest);
            v
        },
    }
}

/// `s` split on `sep`, each segment trimmed of surrounding whitespace.
pub fn split_trim(s: &str, sep: char) -> (r: Vec<String>)
    ensures
        r@.len() == spec_split(s@, sep).len(),
        forall|i: int|
            0 <= i < r@.len() ==> #[trigger] r@[i]@ == spec_trim(spec_split(s@, sep)[i]),
    decreases s@.len(),
{
    let n = s.unicode_len();
    match find_char(s, sep) {
        None => {
            let mut v: Vec<String> = Vec::new();
            v.push(String::from_str(trim_str(s)));
            v
        },
        Some(i) => {
            proof {
                lemma_spec_find(s@, sep);
            }
            let first = trim_str(s.substring_char(0, i));
            let mut rest = split_trim(s.substring_char(i + 1, n), sep);
            let mut v: Vec<String> = Vec::new();
            v.push(String::from_str(first));
            v.append(&mut rest);
            v
        },
    }
}

/// `s` without leading and trailing whitespace.
pub fn trim_str<'a>(s: &'a str) -> (r: &'a str)
    ensures
        r@ == spec_trim(s@),
{
    let n = s.unicode_len();
    let mut i: usize = 0;
    while i < n && is_ws_char(s.get_char(i))
        invariant
            i <= n,
            n == s@.len(),
            forall|m: int| 0 <= m < i ==> is_ws(s@[m]),
        decreases n - i,
    {
        i += 1;
    }
    let mut j: usize = n;
    while j > i && is_ws_char(s.get_char(j - 1))
        invariant
            i <= j <= n,
            n == s@.len(),
            forall|m: int| j <= m < n ==> is_ws(s@[m]),
        decreases j,
    {
        j -= 1;
    }
    let r = s.substring_char(i, j);
    proof {
        lemma_trim_front_exact(s@, i as int);
        let t = s@.subrange(i as int, n as int);
        assert forall|m: int| (j - i) <= m < t.len() implies is_ws(t[m]) by {
            assert(t[m] == s@[m + i]);
        }
        if j > i {
            assert(t[j - i - 1] == s@[j - 1]);
        }
        lemma_trim_back_exact(t, j - i);
        assert(t.subrange(0, j - i) =~= s@.subrange(i as int, j as int));
    }
    r
}

} // verus!
