//! Sequence search, whitespace trimming and decimal rendering, shared by the
//! protocol modules.

use vstd::prelude::*;
use vstd::utf8::{decode_utf8, valid_utf8};

verus! {

/// `pat` occurs in `s` starting at index `i`.
pub open spec fn occurs_at<T>(s: Seq<T>, i: int, pat: Seq<T>) -> bool {
    &&& 0 <= i
    &&& i + pat.len() <= s.len()
    &&& s.subrange(i, i + pat.len()) == pat
}

/// The least index `i >= from` at which `pat` occurs in `s`, if any.
pub open spec fn find_from<T>(s: Seq<T>, from: int, pat: Seq<T>) -> Option<int>
    decreases s.len() + 1 - from,
{
    if from < 0 || from + pat.len() > s.len() {
        None
    } else if occurs_at(s, from, pat) {
        Some(from)
    } else {
        find_from(s, from + 1, pat)
    }
}

/// What `find_from` returns is the first occurrence at or after `from`.
pub proof fn lemma_find_from<T>(s: Seq<T>, from: int, pat: Seq<T>)
    requires
        0 <= from,
    ensures
        find_from(s, from, pat) matches Some(i) ==> {
            &&& from <= i
            &&& occurs_at(s, i, pat)
            &&& forall|j: int| from <= j < i ==> !#[trigger] occurs_at(s, j, pat)
        },
        find_from(s, from, pat) is None ==> forall|j: int|
            from <= j ==> !#[trigger] occurs_at(s, j, pat),
    decreases s.len() + 1 - from,
{
    if from + pat.len() <= s.len() && !occurs_at(s, from, pat) {
        lemma_find_from(s, from + 1, pat);
    }
}

/// A two-element pattern occurs at `i` exactly when its two elements stand
/// there.
pub proof fn lemma_pair_occurs<T>(s: Seq<T>, i: int, a: T, b: T)
    ensures
        occurs_at(s, i, seq![a, b]) <==> (0 <= i && i + 1 < s.len() && s[i] == a && s[i + 1] == b),
{
    if 0 <= i && i + 1 < s.len() {
        if s[i] == a && s[i + 1] == b {
            assert(s.subrange(i, i + 2) =~= seq![a, b]);
        }
        if occurs_at(s, i, seq![a, b]) {
            assert(s.subrange(i, i + 2)[0] == s[i]);
            assert(s.subrange(i, i + 2)[1] == s[i + 1]);
        }
    }
}

/// An occurrence of `pat` inside `s.subrange(lo, hi)` is one in `s`.
pub proof fn lemma_occurs_in_subrange<T>(s: Seq<T>, lo: int, hi: int, i: int, pat: Seq<T>)
    requires
        0 <= lo <= hi <= s.len(),
        occurs_at(s.subrange(lo, hi), i, pat),
    ensures
        occurs_at(s, lo + i, pat),
        lo + i + pat.len() <= hi,
{
    assert(s.subrange(lo, hi).subrange(i, i + pat.len()) =~= s.subrange(lo + i, lo + i + pat.len()));
}

/// Where `pat` occurs at `p` and nowhere in `[from, p)`, `find_from` finds
/// it at `p`.
pub proof fn lemma_find_from_first<T>(s: Seq<T>, from: int, p: int, pat: Seq<T>)
    requires
        0 <= from <= p,
        occurs_at(s, p, pat),
        forall|j: int| from <= j < p ==> !#[trigger] occurs_at(s, j, pat),
    ensures
        find_from(s, from, pat) == Some(p),
    decreases p - from,
{
    if from < p {
        assert(!occurs_at(s, from, pat));
        lemma_find_from_first(s, from + 1, p, pat);
    }
}

/// Whether `pat` occurs in `s` at index `i`, comparing character by
/// character.
fn occurs_at_str(s: &str, i: usize, pat: &str) -> (r: bool)
    requires
        i + pat@.len() <= s@.len() <= usize::MAX,
    ensures
        r == occurs_at(s@, i as int, pat@),
{
    let plen = pat.unicode_len();
    let mut m: usize = 0;
    while m < plen
        invariant
            plen == pat@.len(),
            i + plen <= s@.len() <= usize::MAX,
            m <= plen,
            forall|q: int| 0 <= q < m ==> s@[i + q] == pat@[q],
        decreases plen - m,
    {
        if s.get_char(i + m) != pat.get_char(m) {
            assert(s@.subrange(i as int, i + plen)[m as int] != pat@[m as int]);
            return false;
        }
        m = m + 1;
    }
    assert(s@.subrange(i as int, i + plen) =~= pat@);
    true
}

/// Finds the first occurrence of `pat` in `s` at or after the character
/// index `from`; the result is a character index.
pub fn find_str(s: &str, from: usize, pat: &str) -> (r: Option<usize>)
    requires
        pat@.len() > 0,
    ensures
        index_view(r) == find_from(s@, from as int, pat@),
{
    let n = s.unicode_len();
    let plen = pat.unicode_len();
    let mut i = from;
    while i < n && n - i >= plen
        invariant
            n == s@.len(),
            plen == pat@.len(),
            from <= i,
            find_from(s@, from as int, pat@) == find_from(s@, i as int, pat@),
        decreases n + 1 - i,
    {
        if occurs_at_str(s, i, pat) {
            return Some(i);
        }
        i = i + 1;
    }
    None
}

/// `c` has the Unicode White_Space property, which is what
/// `char::is_whitespace` tests.
pub open spec fn is_white_space(c: char) -> bool {
    let u = c as u32;
    ||| 0x09 <= u <= 0x0D
    ||| u == 0x20
    ||| u == 0x85
    ||| u == 0xA0
    ||| u == 0x1680
    ||| 0x2000 <= u <= 0x200A
    ||| u == 0x2028
    ||| u == 0x2029
    ||| u == 0x202F
    ||| u == 0x205F
    ||| u == 0x3000
}

/// Whether `c` is white space in the sense of `char::is_whitespace`.
pub fn is_whitespace_char(c: char) -> (r: bool)
    ensures
        r == is_white_space(c),
{
    let u = c as u32;
    (0x09 <= u && u <= 0x0D) || u == 0x20 || u == 0x85 || u == 0xA0 || u == 0x1680
        || (0x2000 <= u && u <= 0x200A) || u == 0x2028 || u == 0x2029 || u == 0x202F
        || u == 0x205F || u == 0x3000
}

/// `s` without its leading white space.
pub open spec fn trim_start_ws(s: Seq<char>) -> Seq<char>
    decreases s.len(),
{
    if s.len() > 0 && is_white_space(s[0]) {
        trim_start_ws(s.drop_first())
    } else {
        s
    }
}

/// `s` without its trailing white space.
pub open spec fn trim_end_ws(s: Seq<char>) -> Seq<char>
    decreases s.len(),
{
    if s.len() > 0 && is_white_space(s.last()) {
        trim_end_ws(s.drop_last())
    } else {
        s
    }
}

/// `s` without leading and trailing white space, as `str::trim` leaves it.
pub open spec fn trim_ws(s: Seq<char>) -> Seq<char> {
    trim_end_ws(trim_start_ws(s))
}

/// `s` without its trailing NUL characters, as `trim_end_matches('\0')`
/// leaves it.
pub open spec fn trim_end_nul(s: Seq<char>) -> Seq<char>
    decreases s.len(),
{
    if s.len() > 0 && s.last() == '\0' {
        trim_end_nul(s.drop_last())
    } else {
        s
    }
}

/// `trim_start_ws` keeps a suffix of its argument that does not start with
/// white space.
pub proof fn lemma_trim_start_ws(s: Seq<char>)
    ensures
        trim_start_ws(s).len() <= s.len(),
        trim_start_ws(s) == s.subrange(s.len() - trim_start_ws(s).len(), s.len() as int),
        trim_start_ws(s).len() > 0 ==> !is_white_space(trim_start_ws(s)[0]),
    decreases s.len(),
{
    if s.len() > 0 && is_white_space(s[0]) {
        lemma_trim_start_ws(s.drop_first());
        let t = trim_start_ws(s.drop_first());
        assert(s.drop_first().subrange(s.drop_first().len() - t.len(), s.drop_first().len() as int)
            =~= s.subrange(s.len() - t.len(), s.len() as int));
    } else {
        assert(s.subrange(0, s.len() as int) =~= s);
    }
}

/// `trim_end_ws` keeps a prefix of its argument that does not end with white
/// space.
pub proof fn lemma_trim_end_ws(s: Seq<char>)
    ensures
        trim_end_ws(s).len() <= s.len(),
        trim_end_ws(s) == s.subrange(0, trim_end_ws(s).len() as int),
        trim_end_ws(s).len() > 0 ==> !is_white_space(trim_end_ws(s).last()),
    decreases s.len(),
{
    if s.len() > 0 && is_white_space(s.last()) {
        lemma_trim_end_ws(s.drop_last());
        let t = trim_end_ws(s.drop_last());
        assert(s.drop_last().subrange(0, t.len() as int) =~= s.subrange(0, t.len() as int));
    } else {
        assert(s.subrange(0, s.len() as int) =~= s);
    }
}

/// `trim_end_nul` keeps a prefix of its argument that does not end with NUL.
pub proof fn lemma_trim_end_nul(s: Seq<char>)
    ensures
        trim_end_nul(s).len() <= s.len(),
        trim_end_nul(s) == s.subrange(0, trim_end_nul(s).len() as int),
        trim_end_nul(s).len() > 0 ==> trim_end_nul(s).last() != '\0',
    decreases s.len(),
{
    if s.len() > 0 && s.last() == '\0' {
        lemma_trim_end_nul(s.drop_last());
        let t = trim_end_nul(s.drop_last());
        assert(s.drop_last().subrange(0, t.len() as int) =~= s.subrange(0, t.len() as int));
    } else {
        assert(s.subrange(0, s.len() as int) =~= s);
    }
}

/// Law: trimming white space leaves a text that neither starts nor ends with
/// white space, so trimming it again changes nothing.
pub proof fn lemma_trim_ws_idempotent(s: Seq<char>)
    ensures
        trim_ws(s).len() > 0 ==> !is_white_space(trim_ws(s)[0]) && !is_white_space(trim_ws(s).last()),
        trim_ws(trim_ws(s)) == trim_ws(s),
{
    let u = trim_start_ws(s);
    let t = trim_end_ws(u);
    lemma_trim_start_ws(s);
    lemma_trim_end_ws(u);
    if t.len() > 0 {
        assert(t[0] == u[0]);
    }
    assert(trim_start_ws(t) == t);
    assert(trim_end_ws(t) == t);
}

/// `s` without leading and trailing white space, as `str::trim` leaves it.
pub fn trim_str(s: &str) -> (r: &str)
    ensures
        r@ == trim_ws(s@),
{
    let n = s.unicode_len();
    let mut i: usize = 0;
    assert(s@.subrange(0, n as int) =~= s@);
    while i < n && is_whitespace_char(s.get_char(i))
        invariant
            i <= n,
            n == s@.len(),
            trim_start_ws(s@) == trim_start_ws(s@.subrange(i as int, n as int)),
        decreases n - i,
    {
        assert(s@.subrange(i as int, n as int).drop_first() =~= s@.subrange(i + 1, n as int));
        i = i + 1;
    }
    let ghost rest = s@.subrange(i as int, n as int);
    assert(s@.subrange(0, n as int) =~= s@);
    assert(trim_start_ws(rest) == rest);
    let mut j = n;
    while j > i && is_whitespace_char(s.get_char(j - 1))
        invariant
            i <= j <= n,
            n == s@.len(),
            rest == s@.subrange(i as int, n as int),
            trim_end_ws(rest) == trim_end_ws(s@.subrange(i as int, j as int)),
        decreases j,
    {
        assert(s@.subrange(i as int, j as int).drop_last() =~= s@.subrange(i as int, j - 1));
        j = j - 1;
    }
    assert(trim_end_ws(s@.subrange(i as int, j as int)) == s@.subrange(i as int, j as int));
    s.substring_char(i, j)
}

/// `s` without its trailing NUL characters, as `str::trim_end_matches('\0')`
/// leaves it.
pub fn trim_end_nul_str(s: &str) -> (r: &str)
    ensures
        r@ == trim_end_nul(s@),
{
    let n = s.unicode_len();
    let mut k = n;
    assert(s@.subrange(0, n as int) =~= s@);
    while k > 0 && s.get_char(k - 1) == '\0'
        invariant
            k <= n,
            n == s@.len(),
            trim_end_nul(s@) == trim_end_nul(s@.subrange(0, k as int)),
        decreases k,
    {
        assert(s@.subrange(0, k as int).drop_last() =~= s@.subrange(0, k - 1));
        k = k - 1;
    }
    assert(trim_end_nul(s@.subrange(0, k as int)) == s@.subrange(0, k as int));
    s.substring_char(0, k)
}

/// `s` begins with `prefix`.
pub open spec fn starts_with(s: Seq<char>, prefix: Seq<char>) -> bool {
    prefix.len() <= s.len() && s.subrange(0, prefix.len() as int) == prefix
}

/// Whether `s` begins with `prefix`, as `str::starts_with` tells.
pub fn starts_with_str(s: &str, prefix: &str) -> (r: bool)
    ensures
        r == starts_with(s@, prefix@),
{
    let n = s.unicode_len();
    let m = prefix.unicode_len();
    if m <= n {
        occurs_at_str(s, 0, prefix)
    } else {
        false
    }
}

/// Whether `a` and `b` hold the same text.
pub fn str_equal(a: &str, b: &str) -> (r: bool)
    ensures
        r == (a@ == b@),
{
    let n = a.unicode_len();
    let m = b.unicode_len();
    if n == m {
        let r = occurs_at_str(a, 0, b);
        assert(a@.subrange(0, n as int) =~= a@);
        r
    } else {
        false
    }
}

/// An optional index as a mathematical integer.
pub open spec fn index_view(r: Option<usize>) -> Option<int> {
    match r {
        Some(i) => Some(i as int),
        None => None,
    }
}

/// Finds the first occurrence of the two bytes `a`, `b` in `buf` at or after
/// `from`.
pub fn find_byte_pair(buf: &[u8], from: usize, a: u8, b: u8) -> (r: Option<usize>)
    ensures
        index_view(r) == find_from(buf@, from as int, seq![a, b]),
{
    let ghost pat = seq![a, b];
    let mut i = from;
    while i < buf.len() && buf.len() - i >= 2
        invariant
            from <= i,
            pat == seq![a, b],
            find_from(buf@, from as int, pat) == find_from(buf@, i as int, pat),
        decreases buf.len() - i,
    {
        if buf[i] == a && buf[i + 1] == b {
            assert(buf@.subrange(i as int, i + 2) =~= pat);
            return Some(i);
        }
        assert(!occurs_at(buf@, i as int, pat)) by {
            if buf@.subrange(i as int, i + 2) == pat {
                assert(buf@.subrange(i as int, i + 2)[0] == a);
                assert(buf@.subrange(i as int, i + 2)[1] == b);
            }
        }
        i = i + 1;
    }
    None
}

/// The line break of HTTP as bytes: carriage return, line feed.
pub open spec fn crlf() -> Seq<u8> {
    seq![13u8, 10u8]
}

/// The line break of HTTP as text.
pub open spec fn line_break() -> Seq<char> {
    seq!['\r', '\n']
}

/// Names what `String::from_utf8_lossy` makes of a byte sequence: the text it
/// encodes, with each invalid sequence replaced by U+FFFD.
pub uninterp spec fn lossy_utf8(bytes: Seq<u8>) -> Seq<char>;

/// Decodes `bytes` with `String::from_utf8_lossy` (trusted). The contract
/// claims that the result is a function of the bytes alone (`lossy_utf8`);
/// that valid UTF-8 is decoded unchanged; and, since std only replaces each
/// invalid sequence with U+FFFD, so that a carriage return or line feed in
/// the text is one of the bytes 13 or 10, that bytes without 13 followed by
/// 10 decode to a text without `"\r\n"`. How invalid sequences are cut and
/// replaced is left unsaid.
#[verifier::external_body]
pub(crate) fn decode_lossy(bytes: &[u8]) -> (s: String)
    ensures
        s@ == lossy_utf8(bytes@),
        valid_utf8(bytes@) ==> s@ == decode_utf8(bytes@),
        (forall|i: int| !#[trigger] occurs_at(bytes@, i, crlf())) ==> (forall|i: int|
            !#[trigger] occurs_at(s@, i, line_break())),
{
    String::from_utf8_lossy(bytes).into_owned()
}

/// The decimal digit `d` (`d < 10`) as a character.
pub open spec fn digit_char(d: nat) -> char {
    if d == 0 { '0' }
    else if d == 1 { '1' }
    else if d == 2 { '2' }
    else if d == 3 { '3' }
    else if d == 4 { '4' }
    else if d == 5 { '5' }
    else if d == 6 { '6' }
    else if d == 7 { '7' }
    else if d == 8 { '8' }
    else { '9' }
}

/// The decimal representation of `n`, most significant digit first, with no
/// leading zeros.
pub open spec fn decimal(n: nat) -> Seq<char>
    decreases n,
{
    if n < 10 {
        seq![digit_char(n)]
    } else {
        decimal(n / 10).push(digit_char(n % 10))
    }
}

/// The value of a decimal digit character (`'0'` to `'9'`).
pub open spec fn digit_value(c: char) -> nat {
    ((c as u32) - ('0' as u32)) as nat
}

/// The number that a sequence of decimal digits spells, most significant
/// first.
pub open spec fn digits_value(s: Seq<char>) -> nat
    decreases s.len(),
{
    if s.len() == 0 {
        0
    } else {
        digits_value(s.drop_last()) * 10 + digit_value(s.last())
    }
}

/// `c` is one of `'0'` to `'9'`.
pub open spec fn is_digit(c: char) -> bool {
    '0' <= c <= '9'
}

proof fn lemma_digit_char(d: nat)
    requires
        d < 10,
    ensures
        is_digit(digit_char(d)),
        digit_value(digit_char(d)) == d,
        d != 0 ==> digit_char(d) != '0',
{
}

/// Law: the decimal rendering of `n` is made of digits only, has no leading
/// zero, and reads back as `n`.
pub proof fn lemma_decimal_reads_back(n: nat)
    ensures
        decimal(n).len() > 0,
        n >= 10 ==> decimal(n).len() > 1,
        forall|i: int| 0 <= i < decimal(n).len() ==> is_digit(#[trigger] decimal(n)[i]),
        decimal(n).len() > 1 ==> decimal(n)[0] != '0',
        digits_value(decimal(n)) == n,
    decreases n,
{
    if n < 10 {
        lemma_digit_char(n);
        assert(decimal(n).drop_last() =~= Seq::<char>::empty());
        assert(digits_value(decimal(n).drop_last()) == 0);
        assert(decimal(n).last() == digit_char(n));
        assert(digits_value(decimal(n)) == n);
    } else {
        lemma_decimal_reads_back(n / 10);
        lemma_digit_char(n % 10);
        let d = decimal(n / 10);
        assert(decimal(n) == d.push(digit_char(n % 10)));
        assert(decimal(n).drop_last() =~= d);
        assert forall|i: int| 0 <= i < decimal(n).len() implies is_digit(#[trigger] decimal(n)[i]) by {
            if i < d.len() {
                assert(decimal(n)[i] == d[i]);
            }
        }
        if n / 10 < 10 {
            lemma_digit_char(n / 10);
            assert(d[0] == digit_char(n / 10));
        }
        assert(decimal(n)[0] == d[0]);
        assert(digits_value(decimal(n)) == digits_value(d) * 10 + n % 10);
        assert(n == (n / 10) * 10 + n % 10);
        assert(digits_value(d) == n / 10);
        assert(digits_value(decimal(n)) == n);
    }
}

fn digit_str(d: usize) -> (s: &'static str)
    requires
        d < 10,
    ensures
        s@ == seq![digit_char(d as nat)],
{
    if d == 0 {
        proof { reveal_strlit("0"); }
        "0"
    } else if d == 1 {
        proof { reveal_strlit("1"); }
        "1"
    } else if d == 2 {
        proof { reveal_strlit("2"); }
        "2"
    } else if d == 3 {
        proof { reveal_strlit("3"); }
        "3"
    } else if d == 4 {
        proof { reveal_strlit("4"); }
        "4"
    } else if d == 5 {
        proof { reveal_strlit("5"); }
        "5"
    } else if d == 6 {
        proof { reveal_strlit("6"); }
        "6"
    } else if d == 7 {
        proof { reveal_strlit("7"); }
        "7"
    } else if d == 8 {
        proof { reveal_strlit("8"); }
        "8"
    } else {
        proof { reveal_strlit("9"); }
        "9"
    }
}

/// Renders `n` in decimal, as `format!("{}", n)` does for an unsigned integer.
pub fn decimal_string(n: usize) -> (s: String)
    ensures
        s@ == decimal(n as nat),
    decreases n,
{
    if n < 10 {
        String::from_str(digit_str(n))
    } else {
        let mut s = decimal_string(n / 10);
        s.append(digit_str(n % 10));
        s
    }
}

} // verus!
