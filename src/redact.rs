//! Outbound redaction: masks every email-shaped token of a body.
//!
//! A token is `local @ domain . tld` where `local` is one or more of
//! `[A-Za-z0-9._%+-]`, `domain` one or more of `[A-Za-z0-9.-]` and `tld` two
//! or more ASCII letters. All three classes are ASCII, so on UTF-8 text a
//! byte offset inside a token is also a character offset and masking a token
//! byte for byte keeps the character count of each part.
use vstd::prelude::*;

verus! {

/// The byte `*` that replaces each masked character.
pub const MASK: u8 = 42;

/// The byte `@`.
pub const AT_SIGN: u8 = 64;

/// The byte `.`.
pub const DOT: u8 = 46;

/// The pattern of an email-shaped token, with the local part, the domain
/// label and the top-level domain as its three groups.
pub const EMAIL_PATTERN: &'static str = r"([a-zA-Z0-9._%+-]+)@([a-zA-Z0-9.-]+)\.([a-zA-Z]{2,})";

/// A token found in a body, as byte offsets: `(start, at, dot, end)`. The local
/// part is `[start, at)`, the `@` stands at `at`, the domain label is
/// `(at, dot)`, the separating `.` stands at `dot` and the top-level domain is
/// `(dot, end)`.
pub type Span = (usize, usize, usize, usize);

pub open spec fn is_alpha(b: u8) -> bool {
    (65 <= b <= 90) || (97 <= b <= 122)
}

pub open spec fn is_alnum(b: u8) -> bool {
    is_alpha(b) || (48 <= b <= 57)
}

/// `[A-Za-z0-9._%+-]`
pub open spec fn is_local_byte(b: u8) -> bool {
    is_alnum(b) || b == 46 || b == 95 || b == 37 || b == 43 || b == 45
}

/// `[A-Za-z0-9.-]`
pub open spec fn is_domain_byte(b: u8) -> bool {
    is_alnum(b) || b == 46 || b == 45
}

/// Bytes `[s, e)` of `t` form a token with its `@` at `a` and its last `.` at `d`.
pub open spec fn is_email_at(t: Seq<u8>, s: int, a: int, d: int, e: int) -> bool {
    &&& 0 <= s < a
    &&& a + 1 < d
    &&& d + 3 <= e
    &&& e <= t.len()
    &&& forall|i: int| s <= i < a ==> is_local_byte(#[trigger] t[i])
    &&& t[a] == AT_SIGN
    &&& forall|i: int| a < i < d ==> is_domain_byte(#[trigger] t[i])
    &&& t[d] == DOT
    &&& forall|i: int| d < i < e ==> is_alpha(#[trigger] t[i])
}

pub open spec fn span_is_email(t: Seq<u8>, m: Span) -> bool {
    is_email_at(t, m.0 as int, m.1 as int, m.2 as int, m.3 as int)
}

/// Some token of `t` lies wholly within `[lo, hi)`.
pub open spec fn email_within(t: Seq<u8>, lo: int, hi: int) -> bool {
    exists|s: int, a: int, d: int, e: int|
        lo <= s && e <= hi && #[trigger] is_email_at(t, s, a, d, e)
}

/// Start of the `k`-th stretch of text between tokens.
pub open spec fn gap_lo(ms: Seq<Span>, k: int) -> int {
    if k == 0 {
        0
    } else {
        ms[k - 1].3 as int
    }
}

/// End of the `k`-th stretch of text between tokens.
pub open spec fn gap_hi(t: Seq<u8>, ms: Seq<Span>, k: int) -> int {
    if k == ms.len() {
        t.len() as int
    } else {
        ms[k].0 as int
    }
}

/// `ms` lists tokens of `t` left to right without overlap, and no token of `t`
/// lies wholly in the text between them.
pub open spec fn matches_valid(t: Seq<u8>, ms: Seq<Span>) -> bool {
    &&& forall|k: int| 0 <= k < ms.len() ==> span_is_email(t, #[trigger] ms[k])
    &&& forall|j: int, k: int| 0 <= j < k < ms.len() ==> (#[trigger] ms[j]).3 <= (#[trigger] ms[k]).0
    &&& forall|k: int| 0 <= k <= ms.len() ==> !email_within(t, gap_lo(ms, k), #[trigger] gap_hi(t, ms, k))
}

/// What position `i` of token `m` becomes: `@` and the separating `.` stay,
/// everything else is `*`.
pub open spec fn mask_value(m: Span, i: int) -> u8 {
    if i == m.1 {
        AT_SIGN
    } else if i == m.2 {
        DOT
    } else {
        MASK
    }
}

pub open spec fn in_span(m: Span, i: int) -> bool {
    m.0 <= i < m.3
}

/// `t` with the bytes of `m` masked.
pub open spec fn mask_one(t: Seq<u8>, m: Span) -> Seq<u8> {
    Seq::new(t.len(), |i: int| if in_span(m, i) { mask_value(m, i) } else { t[i] })
}

/// `t` with the bytes of every span of `ms` masked, in order.
pub open spec fn masked(t: Seq<u8>, ms: Seq<Span>) -> Seq<u8>
    decreases ms.len(),
{
    if ms.len() == 0 {
        t
    } else {
        mask_one(masked(t, ms.drop_last()), ms.last())
    }
}

/// The outcome of redacting `t` whose tokens are `ms`: `None` when masking
/// changes nothing, else the masked text.
pub open spec fn redaction(t: Seq<u8>, ms: Seq<Span>) -> Option<Seq<u8>> {
    if masked(t, ms) == t {
        None
    } else {
        Some(masked(t, ms))
    }
}

/// What the regex engine reports for `EMAIL_PATTERN` on `t`.
pub uninterp spec fn email_matches(t: Seq<u8>) -> Seq<Span>;

/// The bytes of the lossy UTF-8 decoding of `b`.
pub uninterp spec fn utf8_lossy(b: Seq<u8>) -> Seq<u8>;

pub open spec fn all_ascii(b: Seq<u8>) -> bool {
    forall|i: int| 0 <= i < b.len() ==> #[trigger] b[i] < 128
}

pub open spec fn is_cont(x: u8) -> bool {
    0x80 <= x <= 0xBF
}

/// The length of the well-formed UTF-8 sequence that starts at `i`, or 0 when
/// none does (RFC 3629: no overlong forms, no surrogates, nothing past
/// U+10FFFF).
pub open spec fn utf8_seq_len(b: Seq<u8>, i: int) -> int {
    let x = b[i];
    if x < 0x80 {
        1
    } else if 0xC2 <= x <= 0xDF && i + 1 < b.len() && is_cont(b[i + 1]) {
        2
    } else if x == 0xE0 && i + 2 < b.len() && 0xA0 <= b[i + 1] <= 0xBF && is_cont(b[i + 2]) {
        3
    } else if ((0xE1 <= x <= 0xEC) || (0xEE <= x <= 0xEF)) && i + 2 < b.len() && is_cont(b[i + 1]) && is_cont(
        b[i + 2],
    ) {
        3
    } else if x == 0xED && i + 2 < b.len() && 0x80 <= b[i + 1] <= 0x9F && is_cont(b[i + 2]) {
        3
    } else if x == 0xF0 && i + 3 < b.len() && 0x90 <= b[i + 1] <= 0xBF && is_cont(b[i + 2]) && is_cont(b[i + 3]) {
        4
    } else if 0xF1 <= x <= 0xF3 && i + 3 < b.len() && is_cont(b[i + 1]) && is_cont(b[i + 2]) && is_cont(b[i + 3]) {
        4
    } else if x == 0xF4 && i + 3 < b.len() && 0x80 <= b[i + 1] <= 0x8F && is_cont(b[i + 2]) && is_cont(b[i + 3]) {
        4
    } else {
        0
    }
}

/// `b` from offset `i` on is well-formed UTF-8.
pub open spec fn utf8_valid_from(b: Seq<u8>, i: int) -> bool
    decreases b.len() - i,
{
    if i < 0 || i >= b.len() {
        true
    } else {
        let n = utf8_seq_len(b, i);
        n > 0 && utf8_valid_from(b, i + n)
    }
}

/// `b` is well-formed UTF-8.
pub open spec fn utf8_valid(b: Seq<u8>) -> bool {
    utf8_valid_from(b, 0)
}

/// Replacing ASCII bytes by ASCII bytes keeps UTF-8 well formed.
pub proof fn lemma_ascii_swap_keeps_utf8(t: Seq<u8>, o: Seq<u8>, i: int)
    requires
        0 <= i,
        o.len() == t.len(),
        forall|j: int| 0 <= j < t.len() && o[j] != t[j] ==> t[j] < 0x80 && o[j] < 0x80,
        utf8_valid_from(t, i),
    ensures
        utf8_valid_from(o, i),
    decreases t.len() - i,
{
    if i < t.len() {
        let n = utf8_seq_len(t, i);
        if t[i] < 0x80 {
            assert(o[i] < 0x80);
            assert(utf8_seq_len(o, i) == 1);
        } else {
            assert(o[i] == t[i]);
            if i + 1 < t.len() && t[i + 1] >= 0x80 {
                assert(o[i + 1] == t[i + 1]);
            }
            if i + 2 < t.len() && t[i + 2] >= 0x80 {
                assert(o[i + 2] == t[i + 2]);
            }
            if i + 3 < t.len() && t[i + 3] >= 0x80 {
                assert(o[i + 3] == t[i + 3]);
            }
            assert(utf8_seq_len(o, i) == n);
        }
        lemma_ascii_swap_keeps_utf8(t, o, i + n);
    }
}

/// ASCII text is well-formed UTF-8.
pub proof fn lemma_ascii_is_utf8(b: Seq<u8>, i: int)
    requires
        0 <= i,
        all_ascii(b),
    ensures
        utf8_valid_from(b, i),
    decreases b.len() - i,
{
    if i < b.len() {
        assert(b[i] < 128);
        lemma_ascii_is_utf8(b, i + 1);
    }
}

/// Relies on `regex::bytes::Regex::captures_iter`: the successive
/// non-overlapping leftmost-first matches of the pattern, each with its three
/// groups. Each span is a token, the spans come in order without overlap, and
/// since each search resumes where the previous match ended and finds the
/// leftmost match, no token lies wholly between two reported ones.
#[verifier::external_body]
fn email_captures(pattern: &str, t: &[u8]) -> (r: Vec<Span>)
    requires
        pattern@ == EMAIL_PATTERN@,
    ensures
        r@ == email_matches(t@),
        matches_valid(t@, r@),
{
    let re = regex::bytes::Regex::new(pattern).unwrap();
    re.captures_iter(t).map(
        |c| (c.get(0).unwrap().start(), c.get(1).unwrap().end(), c.get(2).unwrap().end(), c.get(0).unwrap().end()),
    ).collect()
}

/// Relies on `String::from_utf8_lossy`: invalid sequences become U+FFFD, so
/// the result is well-formed UTF-8, and well-formed input comes back as it was.
#[verifier::external_body]
fn decode_lossy(b: &[u8]) -> (r: Vec<u8>)
    ensures
        r@ == utf8_lossy(b@),
        utf8_valid(r@),
        utf8_valid(b@) ==> r@ == b@,
{
    String::from_utf8_lossy(b).into_owned().into_bytes()
}

pub proof fn lemma_masked_len(t: Seq<u8>, ms: Seq<Span>)
    ensures
        masked(t, ms).len() == t.len(),
    decreases ms.len(),
{
    if ms.len() > 0 {
        lemma_masked_len(t, ms.drop_last());
    }
}

/// Position by position: a byte inside a span takes that span's mask value,
/// any other byte is kept, provided the spans do not overlap.
pub proof fn lemma_masked_at(t: Seq<u8>, ms: Seq<Span>, i: int)
    requires
        0 <= i < t.len(),
        forall|j: int, k: int| 0 <= j < k < ms.len() ==> (#[trigger] ms[j]).3 <= (#[trigger] ms[k]).0,
    ensures
        forall|k: int| 0 <= k < ms.len() && in_span(#[trigger] ms[k], i) ==> masked(t, ms)[i] == mask_value(ms[k], i),
        (forall|k: int| 0 <= k < ms.len() ==> !in_span(#[trigger] ms[k], i)) ==> masked(t, ms)[i] == t[i],
    decreases ms.len(),
{
    if ms.len() > 0 {
        let rest = ms.drop_last();
        assert forall|j: int, k: int| 0 <= j < k < rest.len() implies (#[trigger] rest[j]).3 <= (#[trigger] rest[k]).0 by {
            assert(rest[j] == ms[j] && rest[k] == ms[k]);
        }
        lemma_masked_at(t, rest, i);
        lemma_masked_len(t, rest);
        assert forall|k: int| 0 <= k < ms.len() && in_span(#[trigger] ms[k], i) implies masked(t, ms)[i] == mask_value(ms[k], i) by {
            if k < ms.len() - 1 {
                assert(rest[k] == ms[k]);
                assert(ms[k].3 <= ms[ms.len() - 1].0);
            }
        }
        if forall|k: int| 0 <= k < ms.len() ==> !in_span(#[trigger] ms[k], i) {
            assert forall|k: int| 0 <= k < rest.len() implies !in_span(#[trigger] rest[k], i) by {
                assert(rest[k] == ms[k]);
            }
            assert(!in_span(ms[ms.len() - 1], i));
        }
    }
}

/// Masking with no spans leaves the text as it is.
pub proof fn lemma_no_match_unchanged(t: Seq<u8>, ms: Seq<Span>)
    requires
        ms.len() == 0,
    ensures
        masked(t, ms) == t,
        redaction(t, ms) is None,
{
}

/// Redaction reports a change exactly when at least one token was found.
pub proof fn lemma_changed_iff_matched(t: Seq<u8>, ms: Seq<Span>)
    requires
        matches_valid(t, ms),
    ensures
        (redaction(t, ms) is None) <==> ms.len() == 0,
{
    if ms.len() > 0 {
        let m = ms[0];
        assert(span_is_email(t, m));
        lemma_masked_at(t, ms, m.0 as int);
        lemma_masked_len(t, ms);
        assert(in_span(ms[0], m.0 as int));
        assert(masked(t, ms)[m.0 as int] == MASK);
        assert(is_local_byte(t[m.0 as int]));
        assert(masked(t, ms) != t);
    }
}

/// Each masked token keeps its shape: as many `*` as the local part had
/// characters, then `@`, as many `*` as the domain label had, then `.`, and
/// as many `*` as the top-level domain had. The text keeps its length.
pub proof fn lemma_mask_keeps_part_lengths(t: Seq<u8>, ms: Seq<Span>, k: int)
    requires
        matches_valid(t, ms),
        0 <= k < ms.len(),
    ensures
        masked(t, ms).len() == t.len(),
        masked(t, ms).subrange(ms[k].0 as int, ms[k].1 as int) == Seq::new((ms[k].1 - ms[k].0) as nat, |i: int| MASK),
        masked(t, ms)[ms[k].1 as int] == AT_SIGN,
        masked(t, ms).subrange(ms[k].1 + 1, ms[k].2 as int) == Seq::new((ms[k].2 - ms[k].1 - 1) as nat, |i: int| MASK),
        masked(t, ms)[ms[k].2 as int] == DOT,
        masked(t, ms).subrange(ms[k].2 + 1, ms[k].3 as int) == Seq::new((ms[k].3 - ms[k].2 - 1) as nat, |i: int| MASK),
{
    let m = ms[k];
    let o = masked(t, ms);
    assert(span_is_email(t, m));
    lemma_masked_len(t, ms);
    assert forall|i: int| m.0 <= i < m.3 implies o[i] == mask_value(m, i) by {
        lemma_masked_at(t, ms, i);
        assert(in_span(ms[k], i));
    }
    assert(o[m.1 as int] == mask_value(m, m.1 as int));
    assert(o[m.2 as int] == mask_value(m, m.2 as int));
    assert(o.subrange(m.0 as int, m.1 as int) =~= Seq::new((m.1 - m.0) as nat, |i: int| MASK));
    assert(o.subrange(m.1 + 1, m.2 as int) =~= Seq::new((m.2 - m.1 - 1) as nat, |i: int| MASK));
    assert(o.subrange(m.2 + 1, m.3 as int) =~= Seq::new((m.3 - m.2 - 1) as nat, |i: int| MASK));
}

proof fn lemma_find_gap(t: Seq<u8>, ms: Seq<Span>, s: int, e: int, k: int) -> (g: int)
    requires
        matches_valid(t, ms),
        0 <= k <= ms.len(),
        0 <= s < e <= t.len(),
        forall|j: int| 0 <= j < k ==> (#[trigger] ms[j]).3 <= s,
        forall|j: int| 0 <= j < ms.len() ==> (#[trigger] ms[j]).3 <= s || e <= ms[j].0,
    ensures
        0 <= g <= ms.len(),
        gap_lo(ms, g) <= s,
        e <= gap_hi(t, ms, g),
    decreases ms.len() - k,
{
    if k == ms.len() || e <= ms[k].0 {
        if k > 0 {
            assert(ms[k - 1].3 <= s);
        }
        k
    } else {
        assert(ms[k].3 <= s);
        assert forall|j: int| 0 <= j < k + 1 implies (#[trigger] ms[j]).3 <= s by {
            if j < k {
                assert(ms[j].3 <= s);
            }
        }
        lemma_find_gap(t, ms, s, e, k + 1)
    }
}

/// Masking leaves no token behind: the masked text has no email-shaped token.
pub proof fn lemma_masked_has_no_email(t: Seq<u8>, ms: Seq<Span>)
    requires
        matches_valid(t, ms),
    ensures
        !email_within(masked(t, ms), 0, t.len() as int),
{
    let o = masked(t, ms);
    lemma_masked_len(t, ms);
    if email_within(o, 0, t.len() as int) {
        let (s, a, d, e) = choose|s: int, a: int, d: int, e: int|
            0 <= s && e <= t.len() && #[trigger] is_email_at(o, s, a, d, e);
        assert(o[a] == AT_SIGN);
        assert(is_local_byte(o[a - 1]));
        // No span holds the `@` of the token.
        assert forall|k: int| 0 <= k < ms.len() implies !in_span(#[trigger] ms[k], a) by {
            if in_span(ms[k], a) {
                assert(span_is_email(t, ms[k]));
                lemma_masked_at(t, ms, a);
                if a == ms[k].1 {
                    lemma_masked_at(t, ms, a - 1);
                    assert(in_span(ms[k], a - 1));
                } else {
                }
            }
        }
        // No span reaches into the token at all.
        assert forall|k: int| 0 <= k < ms.len() implies (#[trigger] ms[k]).3 <= s || e <= ms[k].0 by {
            let m = ms[k];
            assert(span_is_email(t, m));
            if !(m.3 <= s || e <= m.0) {
                if a < m.0 {
                    let p = m.0 as int;
                    lemma_masked_at(t, ms, p);
                    assert(in_span(ms[k], p));
                    assert(o[p] == MASK);
                    if p < d {
                        assert(is_domain_byte(o[p]));
                    } else if p > d {
                        assert(is_alpha(o[p]));
                    }
                } else {
                    assert(m.3 <= a);
                    let p = m.3 - 1;
                    lemma_masked_at(t, ms, p);
                    assert(in_span(ms[k], p));
                    assert(o[p] == MASK);
                    assert(is_local_byte(o[p]));
                }
            }
        }
        assert forall|i: int| s <= i < e implies o[i] == t[i] by {
            lemma_masked_at(t, ms, i);
        }
        assert(is_email_at(t, s, a, d, e));
        let g = lemma_find_gap(t, ms, s, e, 0);
        assert(email_within(t, gap_lo(ms, g), gap_hi(t, ms, g)));
    }
}

/// Redacting a redacted text changes nothing: once masked, no token remains,
/// so whatever tokens a second pass reports, there are none.
pub proof fn lemma_redaction_idempotent(t: Seq<u8>, ms: Seq<Span>, ms2: Seq<Span>)
    requires
        matches_valid(t, ms),
        matches_valid(masked(t, ms), ms2),
    ensures
        ms2.len() == 0,
        masked(masked(t, ms), ms2) == masked(t, ms),
        redaction(masked(t, ms), ms2) is None,
{
    let o = masked(t, ms);
    lemma_masked_len(t, ms);
    lemma_masked_has_no_email(t, ms);
    if ms2.len() > 0 {
        let m = ms2[0];
        assert(span_is_email(o, m));
        assert(is_email_at(o, m.0 as int, m.1 as int, m.2 as int, m.3 as int));
        assert(email_within(o, 0, t.len() as int));
    }
}

/// Masking swaps ASCII bytes for ASCII bytes only, so well-formed UTF-8
/// text stays well formed.
pub proof fn lemma_mask_keeps_utf8(t: Seq<u8>, ms: Seq<Span>)
    requires
        matches_valid(t, ms),
        utf8_valid(t),
    ensures
        utf8_valid(masked(t, ms)),
{
    let o = masked(t, ms);
    lemma_masked_len(t, ms);
    assert forall|j: int| 0 <= j < t.len() && o[j] != t[j] implies t[j] < 0x80 && o[j] < 0x80 by {
        lemma_masked_at(t, ms, j);
        if forall|k: int| 0 <= k < ms.len() ==> !in_span(#[trigger] ms[k], j) {
        } else {
            let k = choose|k: int| 0 <= k < ms.len() && in_span(#[trigger] ms[k], j);
            assert(span_is_email(t, ms[k]));
            let m = ms[k];
            if j < m.1 {
                assert(is_local_byte(t[j]));
            } else if j == m.1 || j == m.2 {
            } else if j < m.2 {
                assert(is_domain_byte(t[j]));
            } else {
                assert(is_alpha(t[j]));
            }
        }
    }
    lemma_ascii_swap_keeps_utf8(t, o, 0);
}

/// Redacting a redacted body changes nothing. The first pass decodes the
/// body to well-formed text `t` and masks it; the masked text is still well
/// formed, so the second pass decodes it unchanged, and it holds no token.
pub proof fn lemma_body_redaction_idempotent(t: Seq<u8>, ms: Seq<Span>, ms2: Seq<Span>)
    requires
        utf8_valid(t),
        matches_valid(t, ms),
        matches_valid(masked(t, ms), ms2),
    ensures
        utf8_valid(masked(t, ms)),
        redaction(masked(t, ms), ms2) is None,
{
    lemma_mask_keeps_utf8(t, ms);
    lemma_redaction_idempotent(t, ms, ms2);
}

fn bytes_equal(a: &Vec<u8>, b: &Vec<u8>) -> (r: bool)
    ensures
        r == (a@ == b@),
{
    if a.len() != b.len() {
        return false;
    }
    let mut i: usize = 0;
    while i < a.len()
        invariant
            a@.len() == b@.len(),
            i <= a@.len(),
            forall|j: int| 0 <= j < i ==> a@[j] == b@[j],
        decreases a.len() - i,
    {
        if a[i] != b[i] {
            return false;
        }
        i += 1;
    }
    assert(a@ =~= b@);
    true
}

fn copy_bytes(t: &Vec<u8>) -> (r: Vec<u8>)
    ensures
        r@ == t@,
{
    let mut out: Vec<u8> = Vec::with_capacity(t.len());
    let mut i: usize = 0;
    while i < t.len()
        invariant
            i <= t@.len(),
            out@ == t@.subrange(0, i as int),
        decreases t.len() - i,
    {
        out.push(t[i]);
        i += 1;
        assert(out@ =~= t@.subrange(0, i as int));
    }
    assert(t@.subrange(0, t@.len() as int) =~= t@);
    out
}

/// `t` with every span of `ms` masked: `@` and the separating `.` of each span
/// stay, its other bytes become `*`.
pub fn mask_matches(t: &Vec<u8>, ms: &Vec<Span>) -> (r: Vec<u8>)
    ensures
        r@ == masked(t@, ms@),
{
    let mut out = copy_bytes(t);
    let mut k: usize = 0;
    while k < ms.len()
        invariant
            k <= ms@.len(),
            out@ == masked(t@, ms@.take(k as int)),
            out@.len() == t@.len(),
        decreases ms.len() - k,
    {
        let m = ms[k];
        let ghost prev = out@;
        let end: usize = if m.3 < out.len() { m.3 } else { out.len() };
        let mut i: usize = m.0;
        while i < end
            invariant
                out@.len() == prev.len(),
                end <= prev.len(),
                end <= m.3,
                m.0 <= i,
                i == m.0 || i <= end,
                forall|j: int| 0 <= j < prev.len() ==> out@[j] == (if m.0 <= j < i { mask_value(m, j) } else { prev[j] }),
            decreases end - i,
        {
            let v: u8 = if i == m.1 { AT_SIGN } else if i == m.2 { DOT } else { MASK };
            out.set(i, v);
            i += 1;
        }
        proof {
            assert(ms@.take(k + 1).drop_last() =~= ms@.take(k as int));
            assert(out@ =~= mask_one(prev, m));
        }
        k += 1;
    }
    proof {
        assert(ms@.take(ms@.len() as int) =~= ms@);
    }
    out
}

/// Redacts `t` whose tokens are `ms`: `None` when masking changes nothing,
/// else the masked text.
pub fn redact_with_matches(t: &Vec<u8>, ms: &Vec<Span>) -> (r: Option<Vec<u8>>)
    ensures
        r matches Some(o) ==> redaction(t@, ms@) == Some(o@),
        r is None ==> redaction(t@, ms@) is None,
{
    let out = mask_matches(t, ms);
    if bytes_equal(&out, t) {
        None
    } else {
        Some(out)
    }
}

/// Redacts already decoded text: finds its tokens and masks them.
pub fn redact_text(t: &Vec<u8>) -> (r: Option<Vec<u8>>)
    ensures
        r matches Some(o) ==> redaction(t@, email_matches(t@)) == Some(o@),
        r is None ==> redaction(t@, email_matches(t@)) is None,
        matches_valid(t@, email_matches(t@)),
{
    let ms = email_captures(EMAIL_PATTERN, t.as_slice());
    redact_with_matches(t, &ms)
}

/// The redaction filter on a raw body: decodes it lossily as UTF-8 and
/// redacts the text. `None` means the body goes on as it was; `Some` holds
/// the replacement body.
pub fn redact_body(body: &[u8]) -> (r: Option<Vec<u8>>)
    ensures
        r matches Some(o) ==> redaction(utf8_lossy(body@), email_matches(utf8_lossy(body@))) == Some(o@),
        r is None ==> redaction(utf8_lossy(body@), email_matches(utf8_lossy(body@))) is None,
        r matches Some(o) ==> utf8_valid(o@),
        utf8_valid(body@) ==> utf8_lossy(body@) == body@,
        all_ascii(body@) ==> utf8_lossy(body@) == body@,
{
    proof {
        if all_ascii(body@) {
            lemma_ascii_is_utf8(body@, 0);
        }
    }
    let text = decode_lossy(body);
    let r = redact_text(&text);
    proof {
        lemma_mask_keeps_utf8(text@, email_matches(text@));
    }
    r
}

} // verus!
