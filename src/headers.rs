use vstd::prelude::*;

use crate::body::Length;
use crate::chunk::{SPACE, TAB};

verus! {

pub const COMMA: u8 = 0x2c;

pub const PLUS: u8 = 0x2b;

/// One parsed header line.
pub struct Header {
    pub name: Vec<u8>,
    pub value: Vec<u8>,
}

/// ASCII lowercase of a byte.
pub open spec fn lower(b: u8) -> u8 {
    if 0x41 <= b <= 0x5a {
        (b + 32) as u8
    } else {
        b
    }
}

pub open spec fn eq_ignore_case(a: Seq<u8>, b: Seq<u8>) -> bool {
    &&& a.len() == b.len()
    &&& forall|i: int| 0 <= i < a.len() ==> lower(#[trigger] a[i]) == lower(b[i])
}

pub open spec fn content_length_key() -> Seq<u8> {
    seq![0x63u8, 0x6f, 0x6e, 0x74, 0x65, 0x6e, 0x74, 0x2d, 0x6c, 0x65, 0x6e, 0x67, 0x74, 0x68]
}

pub open spec fn transfer_encoding_key() -> Seq<u8> {
    seq![0x74u8, 0x72, 0x61, 0x6e, 0x73, 0x66, 0x65, 0x72, 0x2d, 0x65, 0x6e, 0x63, 0x6f, 0x64, 0x69, 0x6e, 0x67]
}

pub open spec fn chunked_word() -> Seq<u8> {
    seq![0x63u8, 0x68, 0x75, 0x6e, 0x6b, 0x65, 0x64]
}

pub open spec fn is_digit(b: u8) -> bool {
    0x30 <= b <= 0x39
}

/// The value of a run of decimal digits.
pub open spec fn decimal_value(d: Seq<u8>) -> nat
    decreases d.len(),
{
    if d.len() == 0 {
        0
    } else {
        decimal_value(d.drop_last()) * 10 + (d.last() - 0x30) as nat
    }
}

pub open spec fn all_digits(d: Seq<u8>) -> bool {
    forall|i: int| 0 <= i < d.len() ==> is_digit(#[trigger] d[i])
}

/// The digits of a number written with an optional leading `+`.
pub open spec fn unsigned_part(s: Seq<u8>) -> Seq<u8> {
    if s.len() > 0 && s[0] == PLUS {
        s.subrange(1, s.len() as int)
    } else {
        s
    }
}

/// A decimal number, with an optional leading `+`, that fits in a `usize`.
pub open spec fn parse_decimal(s: Seq<u8>) -> Option<usize> {
    let d = unsigned_part(s);
    if d.len() > 0 && all_digits(d) && decimal_value(d) <= usize::MAX {
        Some(decimal_value(d) as usize)
    } else {
        None
    }
}

pub open spec fn is_ows(b: u8) -> bool {
    b == SPACE || b == TAB
}

pub open spec fn trim_start(e: Seq<u8>) -> Seq<u8>
    decreases e.len(),
{
    if e.len() > 0 && is_ows(e[0]) {
        trim_start(e.subrange(1, e.len() as int))
    } else {
        e
    }
}

pub open spec fn trim_end(e: Seq<u8>) -> Seq<u8>
    decreases e.len(),
{
    if e.len() > 0 && is_ows(e.last()) {
        trim_end(e.drop_last())
    } else {
        e
    }
}

/// The comma-separated elements of a header value.
pub open spec fn elements(v: Seq<u8>) -> Seq<Seq<u8>>
    decreases v.len(),
{
    if v.len() == 0 {
        seq![Seq::empty()]
    } else {
        let e = elements(v.drop_last());
        if v.last() == COMMA {
            e.push(Seq::empty())
        } else {
            e.update(e.len() - 1, e.last().push(v.last()))
        }
    }
}

pub open spec fn is_chunked_element(e: Seq<u8>) -> bool {
    eq_ignore_case(trim_end(trim_start(e)), chunked_word())
}

/// Whether one of the comma-separated elements of `v` is `chunked`, in
/// any case, with optional whitespace around it.
pub open spec fn lists_chunked(v: Seq<u8>) -> bool {
    exists|k: int| 0 <= k < elements(v).len() && is_chunked_element(#[trigger] elements(v)[k])
}

/// The value of the first `Content-Length` header, if any.
pub open spec fn content_length_value(headers: Seq<Header>) -> Option<Seq<u8>>
    decreases headers.len(),
{
    if headers.len() == 0 {
        None
    } else if eq_ignore_case(headers[0].name@, content_length_key()) {
        Some(headers[0].value@)
    } else {
        content_length_value(headers.subrange(1, headers.len() as int))
    }
}

/// Whether some `Transfer-Encoding` header lists `chunked`.
pub open spec fn declares_chunked(headers: Seq<Header>) -> bool {
    exists|i: int|
        0 <= i < headers.len() && eq_ignore_case(#[trigger] headers[i].name@, transfer_encoding_key())
            && lists_chunked(headers[i].value@)
}

/// The body length a message with these headers declares: chunked when a
/// `Transfer-Encoding` header lists `chunked`, else the first numeric
/// `Content-Length`, else no body.
pub open spec fn body_length_spec(headers: Seq<Header>) -> Length {
    if declares_chunked(headers) {
        Length::Chunked(0)
    } else {
        match content_length_value(headers) {
            Some(v) => match parse_decimal(v) {
                Some(n) => Length::ContentLength(n),
                None => Length::NoBody,
            },
            None => Length::NoBody,
        }
    }
}

fn lower_byte(b: u8) -> (r: u8)
    ensures
        r == lower(b),
{
    if 0x41 <= b && b <= 0x5a {
        b + 32
    } else {
        b
    }
}

/// Whether `a[start..end]` equals `word` ignoring ASCII case.
fn range_eq_ignore_case(a: &[u8], start: usize, end: usize, word: &[u8]) -> (r: bool)
    requires
        start <= end <= a@.len(),
    ensures
        r == eq_ignore_case(a@.subrange(start as int, end as int), word@),
{
    if end - start != word.len() {
        return false;
    }
    let mut i: usize = 0;
    while i < word.len()
        invariant
            start <= end <= a@.len(),
            end - start == word@.len(),
            i <= word@.len(),
            forall|j: int| 0 <= j < i ==> lower(a@[start + j]) == lower(word@[j]),
        decreases word@.len() - i,
    {
        if lower_byte(a[start + i]) != lower_byte(word[i]) {
            assert(lower(a@.subrange(start as int, end as int)[i as int]) != lower(word@[i as int]));
            return false;
        }
        i = i + 1;
    }
    assert forall|j: int| 0 <= j < word@.len() implies lower(
        #[trigger] a@.subrange(start as int, end as int)[j],
    ) == lower(word@[j]) by {
        assert(a@.subrange(start as int, end as int)[j] == a@[start + j]);
    }
    true
}

fn is_ows_byte(b: u8) -> (r: bool)
    ensures
        r == is_ows(b),
{
    b == SPACE || b == TAB
}

proof fn lemma_trim_start_step(v: Seq<u8>, a: int, e: int)
    requires
        0 <= a < e <= v.len(),
        is_ows(v[a]),
    ensures
        trim_start(v.subrange(a, e)) == trim_start(v.subrange(a + 1, e)),
{
    assert(v.subrange(a, e).subrange(1, e - a) =~= v.subrange(a + 1, e));
}

proof fn lemma_trim_end_step(v: Seq<u8>, a: int, b: int)
    requires
        0 <= a < b <= v.len(),
        is_ows(v[b - 1]),
    ensures
        trim_end(v.subrange(a, b)) == trim_end(v.subrange(a, b - 1)),
{
    assert(v.subrange(a, b).drop_last() =~= v.subrange(a, b - 1));
}

/// Whether the element `v[start..end]` is `chunked`, once trimmed.
fn element_is_chunked(v: &[u8], start: usize, end: usize) -> (r: bool)
    requires
        start <= end <= v@.len(),
    ensures
        r == is_chunked_element(v@.subrange(start as int, end as int)),
{
    let mut a = start;
    while a < end && is_ows_byte(v[a])
        invariant
            start <= a <= end <= v@.len(),
            trim_start(v@.subrange(start as int, end as int)) == trim_start(v@.subrange(a as int, end as int)),
        decreases end - a,
    {
        proof {
            lemma_trim_start_step(v@, a as int, end as int);
        }
        a = a + 1;
    }
    let mut b = end;
    while b > a && is_ows_byte(v[b - 1])
        invariant
            start <= a <= b <= end <= v@.len(),
            trim_end(v@.subrange(a as int, end as int)) == trim_end(v@.subrange(a as int, b as int)),
        decreases b - a,
    {
        proof {
            lemma_trim_end_step(v@, a as int, b as int);
        }
        b = b - 1;
    }
    assert(trim_start(v@.subrange(a as int, end as int)) == v@.subrange(a as int, end as int));
    assert(trim_end(v@.subrange(a as int, b as int)) == v@.subrange(a as int, b as int));
    let word: [u8; 7] = [0x63, 0x68, 0x75, 0x6e, 0x6b, 0x65, 0x64];
    assert(word@ =~= chunked_word());
    range_eq_ignore_case(v, a, b, word.as_slice())
}

/// Whether one of the comma-separated elements of `v` is `chunked`.
pub fn value_lists_chunked(v: &[u8]) -> (r: bool)
    ensures
        r == lists_chunked(v@),
{
    let mut start: usize = 0;
    let mut found = false;
    let mut i: usize = 0;
    assert(v@.subrange(0, 0) =~= Seq::<u8>::empty());
    while i < v.len()
        invariant
            start <= i <= v@.len(),
            elements(v@.subrange(0, i as int)).len() >= 1,
            elements(v@.subrange(0, i as int)).last() == v@.subrange(start as int, i as int),
            found == exists|k: int|
                0 <= k < elements(v@.subrange(0, i as int)).len() - 1 && is_chunked_element(
                    #[trigger] elements(v@.subrange(0, i as int))[k],
                ),
        decreases v@.len() - i,
    {
        let ghost before = elements(v@.subrange(0, i as int));
        assert(v@.subrange(0, i + 1 as int).drop_last() =~= v@.subrange(0, i as int));
        assert(v@.subrange(0, i + 1 as int).last() == v@[i as int]);
        let ghost after = elements(v@.subrange(0, i + 1 as int));
        if v[i] == COMMA {
            let this = element_is_chunked(v, start, i);
            proof {
                assert(after == before.push(Seq::empty()));
                assert forall|k: int| 0 <= k < before.len() implies after[k] == before[k] by {}
                if this {
                    assert(is_chunked_element(after[before.len() - 1]));
                }
                if found {
                    let k = choose|k: int| 0 <= k < before.len() - 1 && is_chunked_element(#[trigger] before[k]);
                    assert(is_chunked_element(after[k]));
                }
            }
            found = found || this;
            start = i + 1;
            assert(v@.subrange(start as int, i + 1 as int) =~= Seq::<u8>::empty());
        } else {
            proof {
                assert(after == before.update(before.len() - 1, before.last().push(v@[i as int])));
                assert(v@.subrange(start as int, i + 1 as int) =~= v@.subrange(start as int, i as int).push(v@[i as int]));
                assert forall|k: int| 0 <= k < before.len() - 1 implies after[k] == before[k] by {}
                if found {
                    let k = choose|k: int| 0 <= k < before.len() - 1 && is_chunked_element(#[trigger] before[k]);
                    assert(is_chunked_element(after[k]));
                }
            }
        }
        i = i + 1;
    }
    let last = element_is_chunked(v, start, v.len());
    proof {
        assert(v@.subrange(0, v@.len() as int) =~= v@);
        let el = elements(v@);
        if last {
            assert(is_chunked_element(el[el.len() - 1]));
        }
        if found {
            let k = choose|k: int| 0 <= k < el.len() - 1 && is_chunked_element(#[trigger] el[k]);
            assert(is_chunked_element(el[k]));
        }
    }
    found || last
}

proof fn lemma_decimal_prefix_le(d: Seq<u8>, k: int)
    requires
        0 <= k <= d.len(),
    ensures
        decimal_value(d.subrange(0, k)) <= decimal_value(d),
    decreases d.len(),
{
    if k < d.len() {
        assert(d.drop_last().subrange(0, k) =~= d.subrange(0, k));
        lemma_decimal_prefix_le(d.drop_last(), k);
    } else {
        assert(d.subrange(0, k) =~= d);
    }
}

/// Reads a `Content-Length` value: decimal digits with an optional leading
/// `+`, as long as the number fits in a `usize`.
pub fn parse_content_length(s: &[u8]) -> (r: Option<usize>)
    ensures
        r == parse_decimal(s@),
{
    let start: usize = if s.len() > 0 && s[0] == PLUS {
        1
    } else {
        0
    };
    let ghost d = unsigned_part(s@);
    assert(d =~= s@.subrange(start as int, s@.len() as int));
    if start == s.len() {
        return None;
    }
    let mut acc: usize = 0;
    let mut j: usize = start;
    assert(d.subrange(0, 0) =~= Seq::<u8>::empty());
    while j < s.len()
        invariant
            start <= j <= s@.len(),
            d == unsigned_part(s@),
            d == s@.subrange(start as int, s@.len() as int),
            acc == decimal_value(d.subrange(0, j - start)),
            forall|k: int| 0 <= k < j - start ==> is_digit(#[trigger] d[k]),
        decreases s@.len() - j,
    {
        let b = s[j];
        assert(d[j - start] == b);
        if !(0x30 <= b && b <= 0x39) {
            assert(!is_digit(d[j - start]));
            return None;
        }
        let dig: usize = (b - 0x30) as usize;
        assert(d.subrange(0, j + 1 - start).drop_last() =~= d.subrange(0, j - start));
        assert(decimal_value(d.subrange(0, j + 1 - start)) == acc * 10 + dig);
        if acc > (usize::MAX - dig) / 10 {
            proof {
                assert(acc * 10 + dig > usize::MAX) by (nonlinear_arith)
                    requires
                        acc > (usize::MAX - dig) / 10,
                        dig <= 9,
                ;
                lemma_decimal_prefix_le(d, j + 1 - start);
            }
            return None;
        }
        assert(acc * 10 + dig <= usize::MAX) by (nonlinear_arith)
            requires
                acc <= (usize::MAX - dig) / 10,
                dig <= 9,
        ;
        acc = acc * 10 + dig;
        j = j + 1;
    }
    assert(d.subrange(0, j - start) =~= d);
    Some(acc)
}

/// The body length that a message with these headers declares: chunked
/// when a `Transfer-Encoding` header lists `chunked`, else the first
/// `Content-Length` when it is a number, else no body.
pub fn body_length(headers: &Vec<Header>) -> (r: Length)
    ensures
        r == body_length_spec(headers@),
{
    let cl_key: [u8; 14] = [0x63, 0x6f, 0x6e, 0x74, 0x65, 0x6e, 0x74, 0x2d, 0x6c, 0x65, 0x6e, 0x67, 0x74, 0x68];
    let te_key: [u8; 17] = [
        0x74, 0x72, 0x61, 0x6e, 0x73, 0x66, 0x65, 0x72, 0x2d, 0x65, 0x6e, 0x63, 0x6f, 0x64, 0x69, 0x6e, 0x67,
    ];
    assert(cl_key@ =~= content_length_key());
    assert(te_key@ =~= transfer_encoding_key());
    let mut chunked = false;
    let mut seen = false;
    let mut declared: Option<usize> = None;
    let ghost mut first: Seq<u8> = Seq::empty();
    let mut i: usize = 0;
    assert(headers@.subrange(0, headers@.len() as int) =~= headers@);
    while i < headers.len()
        invariant
            i <= headers@.len(),
            cl_key@ == content_length_key(),
            te_key@ == transfer_encoding_key(),
            chunked == exists|k: int|
                0 <= k < i && eq_ignore_case(#[trigger] headers@[k].name@, transfer_encoding_key())
                    && lists_chunked(headers@[k].value@),
            content_length_value(headers@) == if seen {
                Some(first)
            } else {
                content_length_value(headers@.subrange(i as int, headers@.len() as int))
            },
            seen ==> declared == parse_decimal(first),
            !seen ==> declared is None,
        decreases headers@.len() - i,
    {
        let h = &headers[i];
        let name = h.name.as_slice();
        let is_te = range_eq_ignore_case(name, 0, name.len(), te_key.as_slice());
        assert(name@.subrange(0, name@.len() as int) =~= name@);
        if is_te && value_lists_chunked(h.value.as_slice()) {
            chunked = true;
        }
        let ghost rest = headers@.subrange(i as int, headers@.len() as int);
        assert(rest[0] == headers@[i as int]);
        assert(rest.subrange(1, rest.len() as int) =~= headers@.subrange(i + 1 as int, headers@.len() as int));
        if !seen {
            if range_eq_ignore_case(name, 0, name.len(), cl_key.as_slice()) {
                seen = true;
                proof {
                    first = h.value@;
                }
                declared = parse_content_length(h.value.as_slice());
            }
        }
        i = i + 1;
    }
    assert(headers@.subrange(i as int, headers@.len() as int) =~= Seq::<Header>::empty());
    if chunked {
        Length::Chunked(0)
    } else {
        match declared {
            Some(n) => Length::ContentLength(n),
            None => Length::NoBody,
        }
    }
}

} // verus!
