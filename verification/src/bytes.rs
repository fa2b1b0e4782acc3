//! Byte-level helpers shared by the DNS-name and config-text code.
//!
//! All text handled by this crate is ASCII; names are canonicalized to
//! lower case byte by byte.

use vstd::prelude::*;

verus! {

/// The byte is an ASCII upper-case letter.
pub open spec fn is_upper_byte(b: u8) -> bool {
    65 <= b && b <= 90
}

/// ASCII lower-casing of one byte; bytes outside `A`..`Z` pass unchanged.
pub open spec fn to_lower_byte(b: u8) -> u8 {
    if is_upper_byte(b) {
        (b + 32) as u8
    } else {
        b
    }
}

/// ASCII lower-casing of a byte sequence.
pub open spec fn lower_bytes(s: Seq<u8>) -> Seq<u8> {
    s.map(|i: int, b: u8| to_lower_byte(b))
}

/// Executable ASCII lower-casing of one byte.
pub fn lower_byte(b: u8) -> (r: u8)
    ensures
        r == to_lower_byte(b),
{
    if 65 <= b && b <= 90 {
        b + 32
    } else {
        b
    }
}

/// Two byte slices hold the same bytes.
pub fn bytes_eq(a: &[u8], b: &[u8]) -> (r: bool)
    ensures
        r == (a@ == b@),
{
    if a.len() != b.len() {
        return false;
    }
    let mut i: usize = 0;
    while i < a.len()
        invariant
            i <= a.len(),
            a@.len() == b@.len(),
            forall|j: int| 0 <= j < i ==> a@[j] == b@[j],
        decreases a.len() - i,
    {
        if a[i] != b[i] {
            return false;
        }
        i += 1;
    }
    proof {
        assert(a@ =~= b@);
    }
    true
}

/// The byte is a blank: space, tab, or a carriage return left by a
/// CRLF line ending.
pub open spec fn is_ws(b: u8) -> bool {
    b == 32 || b == 9 || b == 13
}

/// The first position at or after `i` holding `sep`, or the end.
pub open spec fn sep_end(s: Seq<u8>, i: int, sep: u8) -> int
    decreases s.len() - i,
{
    if i < 0 || i >= s.len() {
        s.len() as int
    } else if s[i] == sep {
        i
    } else {
        sep_end(s, i + 1, sep)
    }
}

/// Split from position `i` at every `sep`: the pieces between the
/// separators, in order, kept even when empty.
pub open spec fn split_on(s: Seq<u8>, i: int, sep: u8) -> Seq<Seq<u8>>
    decreases s.len() - i,
    via split_on_dec
{
    if !(0 <= i <= s.len()) {
        seq![Seq::empty()]
    } else {
        let e = sep_end(s, i, sep);
        if e >= s.len() {
            seq![s.subrange(i, s.len() as int)]
        } else {
            seq![s.subrange(i, e)] + split_on(s, e + 1, sep)
        }
    }
}

#[via_fn]
proof fn split_on_dec(s: Seq<u8>, i: int, sep: u8) {
    if 0 <= i <= s.len() {
        lemma_sep_end_bounds(s, i, sep);
    }
}

/// `sep_end` is pinned by its two defining facts.
pub proof fn lemma_sep_end_char(s: Seq<u8>, i: int, e: int, sep: u8)
    requires
        0 <= i <= e <= s.len(),
        forall|j: int| i <= j < e ==> s[j] != sep,
        e == s.len() || s[e] == sep,
    ensures
        sep_end(s, i, sep) == e,
    decreases e - i,
{
    if i < e {
        lemma_sep_end_char(s, i + 1, e, sep);
    }
}

/// A piece without the separator is one whole piece.
pub proof fn lemma_split_single(s: Seq<u8>, sep: u8)
    requires
        forall|j: int| 0 <= j < s.len() ==> s[j] != sep,
    ensures
        split_on(s, 0, sep) == seq![s],
    decreases s.len(),
{
    lemma_sep_end_char(s, 0, s.len() as int, sep);
    assert(s.subrange(0, s.len() as int) =~= s);
}

/// Splitting `piece`, a separator, then `rest` yields `piece` and then
/// the split of `rest`, when `piece` holds no separator.
pub proof fn lemma_split_prefix(piece: Seq<u8>, rest: Seq<u8>, sep: u8)
    requires
        forall|j: int| 0 <= j < piece.len() ==> piece[j] != sep,
    ensures
        split_on(piece + seq![sep] + rest, 0, sep) == seq![piece] + split_on(rest, 0, sep),
{
    let s = piece + seq![sep] + rest;
    let p = piece.len() as int;
    assert(s.len() == p + 1 + rest.len());
    assert(s[p] == sep);
    assert forall|j: int| 0 <= j < p implies s[j] != sep by {
        assert(s[j] == piece[j]);
    }
    lemma_sep_end_char(s, 0, p, sep);
    assert(s.subrange(0, p) =~= piece);
    assert(rest =~= s.subrange(p + 1, s.len() as int));
    lemma_split_shift(s, p + 1, sep, rest);
}

/// Splitting the tail of `s` that equals `rest` equals splitting `rest`.
#[verifier::rlimit(100)]
proof fn lemma_split_shift(s: Seq<u8>, i: int, sep: u8, rest: Seq<u8>)
    requires
        0 <= i <= s.len(),
        rest == s.subrange(i, s.len() as int),
    ensures
        split_on(s, i, sep) == split_on(rest, 0, sep),
    decreases s.len() - i,
{
    let e = sep_end(s, i, sep);
    let er = sep_end(rest, 0, sep);
    assert forall|j: int| i <= j < s.len() implies s[j] == rest[j - i] by {}
    lemma_sep_end_bounds(s, i, sep);
    lemma_sep_end_bounds(rest, 0, sep);
    lemma_sep_end_none(s, i, sep);
    lemma_sep_end_none(rest, 0, sep);
    lemma_sep_end_hit(s, i, sep);
    lemma_sep_end_hit(rest, 0, sep);
    lemma_sep_end_char(rest, 0, e - i, sep);
    if e >= s.len() {
        assert(s.subrange(i, s.len() as int) =~= rest.subrange(0, rest.len() as int));
    } else {
        assert(s.subrange(i, e) =~= rest.subrange(0, e - i));
        let s2 = s.subrange(e + 1, s.len() as int);
        let r2 = rest.subrange(e - i + 1, rest.len() as int);
        assert(s2 =~= r2);
        lemma_split_shift(s, e + 1, sep, s2);
        lemma_split_shift(rest, e - i + 1, sep, r2);
    }
}

/// `sep_end` stays within bounds.
pub proof fn lemma_sep_end_bounds(s: Seq<u8>, i: int, sep: u8)
    requires
        0 <= i <= s.len(),
    ensures
        i <= sep_end(s, i, sep) <= s.len(),
    decreases s.len() - i,
{
    if i < s.len() && s[i] != sep {
        lemma_sep_end_bounds(s, i + 1, sep);
    }
}

/// No separator stands before `sep_end`.
pub proof fn lemma_sep_end_none(s: Seq<u8>, i: int, sep: u8)
    requires
        0 <= i <= s.len(),
    ensures
        forall|j: int| i <= j < sep_end(s, i, sep) ==> s[j] != sep,
    decreases s.len() - i,
{
    if i < s.len() && s[i] != sep {
        lemma_sep_end_none(s, i + 1, sep);
    }
}

/// `sep_end` lands on a separator or the end.
pub proof fn lemma_sep_end_hit(s: Seq<u8>, i: int, sep: u8)
    requires
        0 <= i <= s.len(),
    ensures
        sep_end(s, i, sep) == s.len() || s[sep_end(s, i, sep)] == sep,
    decreases s.len() - i,
{
    if i < s.len() && s[i] != sep {
        lemma_sep_end_hit(s, i + 1, sep);
    }
}

/// Split a byte slice at every `sep`.
pub fn split_on_byte(s: &[u8], sep: u8) -> (r: Vec<Vec<u8>>)
    ensures
        r@.map(|k: int, p: Vec<u8>| p@) == split_on(s@, 0, sep),
{
    let mut out: Vec<Vec<u8>> = Vec::new();
    let mut i: usize = 0;
    loop
        invariant_except_break
            0 <= i <= s@.len(),
            split_on(s@, 0, sep) == out@.map(|k: int, p: Vec<u8>| p@) + split_on(s@, i as int, sep),
        ensures
            out@.map(|k: int, p: Vec<u8>| p@) == split_on(s@, 0, sep),
        decreases s@.len() - i,
    {
        let ghost pre_out = out@.map(|k: int, p: Vec<u8>| p@);
        let mut e: usize = i;
        let mut piece: Vec<u8> = Vec::new();
        while e < s.len() && s[e] != sep
            invariant
                i <= e <= s@.len(),
                forall|j: int| i <= j < e ==> s@[j] != sep,
                piece@ =~= s@.subrange(i as int, e as int),
            decreases s@.len() - e,
        {
            piece.push(s[e]);
            e += 1;
        }
        proof {
            lemma_sep_end_char(s@, i as int, e as int, sep);
        }
        out.push(piece);
        proof {
            assert(out@.map(|k: int, p: Vec<u8>| p@) =~= pre_out + seq![s@.subrange(
                i as int,
                e as int,
            )]);
        }
        if e == s.len() {
            proof {
                assert(split_on(s@, i as int, sep) == seq![s@.subrange(i as int, s@.len() as int)]);
                assert(pre_out + seq![s@.subrange(i as int, e as int)] =~= split_on(s@, 0, sep));
            }
            break;
        }
        proof {
            assert(split_on(s@, i as int, sep) == seq![s@.subrange(i as int, e as int)] + split_on(
                s@,
                e + 1,
                sep,
            ));
            assert(pre_out + seq![s@.subrange(i as int, e as int)] + split_on(s@, e + 1, sep)
                =~= pre_out + (seq![s@.subrange(i as int, e as int)] + split_on(s@, e + 1, sep)));
        }
        i = e + 1;
    }
    out
}

/// The first position at or after `i` holding a non-blank byte, or the end.
pub open spec fn ws_front(s: Seq<u8>, i: int) -> int
    decreases s.len() - i,
{
    if i < 0 || i >= s.len() {
        s.len() as int
    } else if is_ws(s[i]) {
        ws_front(s, i + 1)
    } else {
        i
    }
}

/// The position after the last non-blank byte strictly before `j`, or zero.
pub open spec fn ws_back(s: Seq<u8>, j: int) -> int
    decreases j,
{
    if j <= 0 || j > s.len() {
        0
    } else if is_ws(s[j - 1]) {
        ws_back(s, j - 1)
    } else {
        j
    }
}

/// The bytes with leading and trailing blanks removed.
pub open spec fn trim(s: Seq<u8>) -> Seq<u8> {
    let a = ws_front(s, 0);
    let b = ws_back(s, s.len() as int);
    if a >= b {
        Seq::empty()
    } else {
        s.subrange(a, b)
    }
}

/// A sequence without blanks at either end trims to itself.
pub proof fn lemma_trim_id(s: Seq<u8>)
    requires
        s.len() == 0 || (!is_ws(s[0]) && !is_ws(s[s.len() - 1])),
    ensures
        trim(s) == s,
{
    if s.len() == 0 {
        assert(trim(s) =~= s);
    } else {
        assert(ws_front(s, 0) == 0);
        assert(ws_back(s, s.len() as int) == s.len());
        assert(s.subrange(0, s.len() as int) =~= s);
    }
}

/// Where a comment begins: the first `#` at the line start or after a
/// blank; the end when there is none.
pub open spec fn comment_start(s: Seq<u8>, i: int) -> int
    decreases s.len() - i,
{
    if i < 0 || i >= s.len() {
        s.len() as int
    } else if s[i] == 35 && (i == 0 || is_ws(s[i - 1])) {
        i
    } else {
        comment_start(s, i + 1)
    }
}

/// `comment_start` is pinned by its two defining facts.
pub proof fn lemma_comment_char(s: Seq<u8>, i: int, e: int)
    requires
        0 <= i <= e <= s.len(),
        forall|j: int| i <= j < e ==> !((#[trigger] s[j]) == 35 && (j == 0 || is_ws(s[j - 1]))),
        e == s.len() || (s[e] == 35 && (e == 0 || is_ws(s[e - 1]))),
    ensures
        comment_start(s, i) == e,
    decreases e - i,
{
    if i < e {
        lemma_comment_char(s, i + 1, e);
    }
}

/// One config line reduced to its content: any comment stripped, then
/// blanks (and a stray carriage return) trimmed from both ends.
pub open spec fn clean(l: Seq<u8>) -> Seq<u8> {
    trim(l.take(comment_start(l, 0)))
}

/// Reduce one line to its content.
pub fn clean_line(l: &Vec<u8>) -> (r: Vec<u8>)
    ensures
        r@ == clean(l@),
{
    let mut e: usize = 0;
    while e < l.len() && !(l[e] == 35 && (e == 0 || l[e - 1] == 32 || l[e - 1] == 9 || l[e - 1]
        == 13))
        invariant
            0 <= e <= l@.len(),
            forall|j: int| 0 <= j < e ==> !((#[trigger] l@[j]) == 35 && (j == 0 || is_ws(l@[j - 1]))),
        decreases l@.len() - e,
    {
        e += 1;
    }
    proof {
        lemma_comment_char(l@, 0, e as int);
    }
    let ghost cut = l@.take(e as int);
    let mut a: usize = 0;
    while a < e && (l[a] == 32 || l[a] == 9 || l[a] == 13)
        invariant
            0 <= a <= e <= l@.len(),
            cut == l@.take(e as int),
            forall|j: int| 0 <= j < a ==> is_ws(cut[j]),
            a < e ==> ws_front(cut, 0) == ws_front(cut, a as int),
        decreases e - a,
    {
        a += 1;
        proof {
            lemma_ws_front_step(cut, a as int);
        }
    }
    let mut b: usize = e;
    while b > a && (l[b - 1] == 32 || l[b - 1] == 9 || l[b - 1] == 13)
        invariant
            a <= b <= e <= l@.len(),
            cut == l@.take(e as int),
            forall|j: int| 0 <= j < a ==> is_ws(cut[j]),
            ws_back(cut, e as int) == ws_back(cut, b as int),
        decreases b,
    {
        b -= 1;
    }
    let mut out: Vec<u8> = Vec::new();
    let mut k: usize = a;
    while k < b
        invariant
            a <= k <= b <= e <= l@.len(),
            cut == l@.take(e as int),
            out@ =~= cut.subrange(a as int, k as int),
        decreases b - k,
    {
        out.push(l[k]);
        k += 1;
    }
    proof {
        if a < e {
            lemma_ws_front_char(cut, a as int);
        } else {
            lemma_ws_front_all(cut, 0);
        }
        if b > a {
            assert(ws_back(cut, b as int) == b) by {
                assert(!is_ws(cut[b - 1]));
            }
            assert(ws_front(cut, 0) == a);
            assert(out@ =~= trim(cut));
        } else {
            // Everything between the ends is blank: the trim is empty.
            assert(b == a);
            assert(ws_back(cut, b as int) <= a) by {
                lemma_ws_back_low(cut, b as int, a as int);
            }
            assert(ws_front(cut, 0) >= ws_back(cut, e as int));
            assert(out@ =~= Seq::<u8>::empty());
        }
    }
    out
}

/// Stepping over one blank keeps `ws_front` in place.
pub proof fn lemma_ws_front_step(s: Seq<u8>, a: int)
    requires
        0 < a <= s.len(),
        is_ws(s[a - 1]),
    ensures
        ws_front(s, a - 1) == ws_front(s, a),
{
}

/// `ws_front` stops exactly at a non-blank byte.
pub proof fn lemma_ws_front_char(s: Seq<u8>, a: int)
    requires
        0 <= a < s.len(),
        forall|j: int| 0 <= j < a ==> is_ws(s[j]),
        !is_ws(s[a]),
    ensures
        ws_front(s, 0) == a,
    decreases a,
{
    lemma_ws_front_span(s, 0, a);
}

/// `ws_front` crosses a span of blanks.
pub proof fn lemma_ws_front_span(s: Seq<u8>, i: int, a: int)
    requires
        0 <= i <= a < s.len(),
        forall|j: int| i <= j < a ==> is_ws(s[j]),
        !is_ws(s[a]),
    ensures
        ws_front(s, i) == a,
    decreases a - i,
{
    if i < a {
        lemma_ws_front_span(s, i + 1, a);
    }
}

/// Over all-blank bytes, `ws_front` runs to the end.
pub proof fn lemma_ws_front_all(s: Seq<u8>, i: int)
    requires
        0 <= i <= s.len(),
        forall|j: int| i <= j < s.len() ==> is_ws(s[j]),
    ensures
        ws_front(s, i) == s.len(),
    decreases s.len() - i,
{
    if i < s.len() {
        lemma_ws_front_all(s, i + 1);
    }
}

/// With only blanks before `a`, `ws_back` from within them stays at or
/// below `a`.
pub proof fn lemma_ws_back_low(s: Seq<u8>, b: int, a: int)
    requires
        0 <= b <= a <= s.len(),
        forall|j: int| 0 <= j < a ==> is_ws(s[j]),
    ensures
        ws_back(s, b) <= a,
    decreases b,
{
    if b > 0 {
        if is_ws(s[b - 1]) {
            lemma_ws_back_low(s, b - 1, a);
        }
    }
}

/// The blanks-trimmed tail of `l` from position `from` on.
pub fn trim_sub(l: &Vec<u8>, from: usize) -> (r: Vec<u8>)
    requires
        from <= l@.len(),
    ensures
        r@ == trim(l@.skip(from as int)),
{
    let ghost s = l@.skip(from as int);
    let e: usize = l.len();
    let mut a: usize = from;
    while a < e && (l[a] == 32 || l[a] == 9 || l[a] == 13)
        invariant
            from <= a <= e,
            e == l@.len(),
            s == l@.skip(from as int),
            forall|j: int| 0 <= j < a - from ==> is_ws(#[trigger] s[j]),
        decreases e - a,
    {
        a += 1;
    }
    let mut b: usize = e;
    while b > a && (l[b - 1] == 32 || l[b - 1] == 9 || l[b - 1] == 13)
        invariant
            from <= a <= b <= e,
            e == l@.len(),
            s == l@.skip(from as int),
            ws_back(s, (e - from) as int) == ws_back(s, (b - from) as int),
        decreases b,
    {
        b -= 1;
    }
    let mut out: Vec<u8> = Vec::new();
    let mut k: usize = a;
    while k < b
        invariant
            from <= a <= k <= b <= e,
            e == l@.len(),
            s == l@.skip(from as int),
            out@ =~= s.subrange((a - from) as int, (k - from) as int),
        decreases b - k,
    {
        proof {
            assert(l@.skip(from as int)[(k - from) as int] == l@[k as int]) by {
                assert(l@.skip(from as int) =~= l@.subrange(from as int, l@.len() as int));
            }
        }
        out.push(l[k]);
        k += 1;
    }
    proof {
        let sa = (a - from) as int;
        let sb = (b - from) as int;
        if a < e {
            lemma_ws_front_char(s, sa);
        } else {
            lemma_ws_front_all(s, 0);
        }
        if b > a {
            assert(ws_back(s, sb) == sb) by {
                assert(!is_ws(s[sb - 1]));
            }
            assert(ws_front(s, 0) == sa);
            assert(out@ =~= trim(s));
        } else {
            assert(b == a);
            assert(ws_back(s, sb) <= sa) by {
                lemma_ws_back_low(s, sb, sa);
            }
            assert(ws_front(s, 0) >= ws_back(s, s.len() as int));
            assert(out@ =~= Seq::<u8>::empty());
        }
    }
    out
}

/// Copy a byte vector.
pub fn copy_bytes(a: &Vec<u8>) -> (r: Vec<u8>)
    ensures
        r@ == a@,
{
    let mut out: Vec<u8> = Vec::new();
    let mut i: usize = 0;
    while i < a.len()
        invariant
            i <= a.len(),
            out@ =~= a@.take(i as int),
        decreases a.len() - i,
    {
        out.push(a[i]);
        i += 1;
    }
    proof {
        assert(out@ =~= a@);
    }
    out
}

} // verus!
