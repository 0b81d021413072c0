//! Byte-level helpers shared by the response decoder: ASCII case folding,
//! CRLF scanning, whitespace trimming, and decimal / hexadecimal number
//! parsing, each with its mathematical counterpart.

use vstd::prelude::*;

verus! {

pub const CR: u8 = 13;
pub const LF: u8 = 10;
pub const SP: u8 = 32;
pub const HTAB: u8 = 9;

/// ASCII lower-casing of one byte.
pub open spec fn lower(c: u8) -> u8 {
    if 65 <= c && c <= 90 {
        (c + 32) as u8
    } else {
        c
    }
}

/// ASCII lower-casing of a byte sequence.
pub open spec fn lower_seq(s: Seq<u8>) -> Seq<u8> {
    s.map_values(|c: u8| lower(c))
}

pub fn lower_byte(c: u8) -> (r: u8)
    ensures
        r == lower(c),
{
    if 65 <= c && c <= 90 {
        c + 32
    } else {
        c
    }
}

/// Exact equality of two byte strings.
pub fn bytes_eq(a: &[u8], b: &[u8]) -> (r: bool)
    ensures
        r == (a@ == b@),
{
    if a.len() != b.len() {
        return false;
    }
    let n = a.len();
    let mut i: usize = 0;
    while i < n
        invariant
            n == a@.len() == b@.len(),
            i <= n,
            forall|k: int| 0 <= k < i ==> a@[k] == b@[k],
        decreases n - i,
    {
        if a[i] != b[i] {
            return false;
        }
        i += 1;
    }
    assert(a@ =~= b@);
    true
}

/// ASCII case-insensitive equality of two byte strings.
pub fn eq_ignore_case(a: &[u8], b: &[u8]) -> (r: bool)
    ensures
        r == (lower_seq(a@) == lower_seq(b@)),
{
    if a.len() != b.len() {
        assert(lower_seq(a@).len() != lower_seq(b@).len());
        return false;
    }
    let n = a.len();
    let mut i: usize = 0;
    while i < n
        invariant
            n == a@.len() == b@.len(),
            i <= n,
            forall|k: int| 0 <= k < i ==> lower(a@[k]) == lower(b@[k]),
        decreases n - i,
    {
        if lower_byte(a[i]) != lower_byte(b[i]) {
            assert(lower_seq(a@)[i as int] != lower_seq(b@)[i as int]);
            return false;
        }
        i += 1;
    }
    assert(lower_seq(a@) =~= lower_seq(b@));
    true
}

pub open spec fn is_ws(c: u8) -> bool {
    c == SP || c == HTAB
}

/// The sequence with leading spaces and tabs removed.
pub open spec fn trim_front(s: Seq<u8>) -> Seq<u8>
    decreases s.len(),
{
    if s.len() > 0 && is_ws(s[0]) {
        trim_front(s.drop_first())
    } else {
        s
    }
}

/// The sequence with trailing spaces and tabs removed.
pub open spec fn trim_back(s: Seq<u8>) -> Seq<u8>
    decreases s.len(),
{
    if s.len() > 0 && is_ws(s[s.len() - 1]) {
        trim_back(s.drop_last())
    } else {
        s
    }
}

/// The sequence with leading and trailing spaces and tabs removed.
pub open spec fn trim(s: Seq<u8>) -> Seq<u8> {
    trim_back(trim_front(s))
}

proof fn lemma_trim_front_skip(s: Seq<u8>, i: int)
    requires
        0 <= i <= s.len(),
        forall|k: int| 0 <= k < i ==> is_ws(s[k]),
        i < s.len() ==> !is_ws(s[i]),
    ensures
        trim_front(s) == s.skip(i),
    decreases i,
{
    if i == 0 {
        assert(s.skip(0) =~= s);
    } else {
        lemma_trim_front_skip(s.drop_first(), i - 1);
        assert(s.drop_first().skip(i - 1) =~= s.skip(i));
    }
}

proof fn lemma_trim_back_take(s: Seq<u8>, j: int)
    requires
        0 <= j <= s.len(),
        forall|k: int| j <= k < s.len() ==> is_ws(s[k]),
        j > 0 ==> !is_ws(s[j - 1]),
    ensures
        trim_back(s) == s.take(j),
    decreases s.len() - j,
{
    if j == s.len() {
        assert(s.take(j) =~= s);
    } else {
        lemma_trim_back_take(s.drop_last(), j);
        assert(s.drop_last().take(j) =~= s.take(j));
    }
}

/// Removes leading and trailing ASCII spaces and tabs.
pub fn trim_bytes(s: &[u8]) -> (r: Vec<u8>)
    ensures
        r@ == trim(s@),
{
    let n = s.len();
    let mut i: usize = 0;
    while i < n && (s[i] == SP || s[i] == HTAB)
        invariant
            n == s@.len(),
            i <= n,
            forall|k: int| 0 <= k < i ==> is_ws(s@[k]),
        decreases n - i,
    {
        i += 1;
    }
    proof {
        lemma_trim_front_skip(s@, i as int);
    }
    let mut j: usize = n;
    while j > i && (s[j - 1] == SP || s[j - 1] == HTAB)
        invariant
            n == s@.len(),
            i <= j <= n,
            forall|k: int| j <= k < n ==> is_ws(s@[k]),
        decreases j,
    {
        j -= 1;
    }
    proof {
        let f = s@.skip(i as int);
        lemma_trim_back_take(f, j - i);
        assert(f.take(j - i) =~= s@.subrange(i as int, j as int));
    }
    let r = vstd::slice::slice_to_vec(vstd::slice::slice_subrange(s, i, j));
    r
}

/// The first index at which `sub` occurs in `b`, if any.
pub open spec fn find_at(b: Seq<u8>, sub: Seq<u8>, i: nat) -> Option<int>
    decreases b.len() + 1 - i,
{
    if i + sub.len() > b.len() {
        None
    } else if b.subrange(i as int, i + sub.len() as int) == sub {
        Some(i as int)
    } else {
        find_at(b, sub, i + 1)
    }
}

pub proof fn lemma_find_at_some_bounds(b: Seq<u8>, sub: Seq<u8>, j: nat, i: int)
    requires
        find_at(b, sub, j) == Some(i),
    ensures
        j <= i,
        i + sub.len() <= b.len(),
        b.subrange(i, i + sub.len() as int) == sub,
    decreases b.len() + 1 - j,
{
    if j + sub.len() > b.len() {
    } else if b.subrange(j as int, j + sub.len() as int) == sub {
    } else {
        lemma_find_at_some_bounds(b, sub, (j + 1) as nat, i);
    }
}

/// Appending bytes on the right does not move an occurrence already found.
pub proof fn lemma_find_at_append(a: Seq<u8>, c: Seq<u8>, sub: Seq<u8>, j: nat)
    requires
        find_at(a, sub, j) is Some,
    ensures
        find_at(a + c, sub, j) == find_at(a, sub, j),
    decreases a.len() + 1 - j,
{
    if j + sub.len() > a.len() {
        assert(false);
    } else {
        assert((a + c).subrange(j as int, j + sub.len() as int) =~= a.subrange(
            j as int,
            j + sub.len() as int,
        ));
        if a.subrange(j as int, j + sub.len() as int) == sub {
        } else {
            lemma_find_at_append(a, c, sub, (j + 1) as nat);
        }
    }
}

/// An occurrence with no earlier occurrence is the one that is found.
pub proof fn lemma_find_at_exact(b: Seq<u8>, sub: Seq<u8>, j: nat, i: int)
    requires
        j <= i,
        i + sub.len() <= b.len(),
        b.subrange(i, i + sub.len() as int) == sub,
        forall|k: int| j <= k < i ==> #[trigger] b.subrange(k, k + sub.len() as int) != sub,
    ensures
        find_at(b, sub, j) == Some(i),
    decreases i - j,
{
    if j < i {
        assert(b.subrange(j as int, j + sub.len() as int) != sub);
        lemma_find_at_exact(b, sub, (j + 1) as nat, i);
    }
}

/// The lower-case hexadecimal digit for `d`.
pub open spec fn hex_digit_of(d: nat) -> u8 {
    if d < 10 {
        (48 + d) as u8
    } else {
        (87 + d) as u8
    }
}

/// The lower-case hexadecimal rendering of `n`, most significant digit
/// first, no leading zeros (a single zero for zero).
pub open spec fn hex_digits_of(n: nat) -> Seq<u8>
    decreases n,
{
    if n < 16 {
        seq![hex_digit_of(n)]
    } else {
        hex_digits_of(n / 16).push(hex_digit_of(n % 16))
    }
}

/// The hexadecimal rendering parses back to the number, consists of
/// hexadecimal digits only, and contains no carriage return.
pub proof fn lemma_hex_digits_of(n: nat)
    ensures
        hex_digits_of(n).len() >= 1,
        all_hex_digits(hex_digits_of(n)),
        hex_value(hex_digits_of(n)) == n,
        forall|k: int| 0 <= k < hex_digits_of(n).len() ==> hex_digits_of(n)[k] != CR,
    decreases n,
{
    if n < 16 {
        let s = hex_digits_of(n);
        assert(s.drop_last() =~= Seq::<u8>::empty());
        assert(hex_value(Seq::<u8>::empty()) == 0);
        assert(hex_digit_val(hex_digit_of(n)) == n);
        assert(hex_value(s) == n);
    } else {
        lemma_hex_digits_of(n / 16);
        let s = hex_digits_of(n);
        let h = hex_digits_of(n / 16);
        assert(s == h.push(hex_digit_of(n % 16)));
        assert(s.drop_last() =~= h);
        assert(s.last() == hex_digit_of(n % 16));
        assert(hex_digit_val(hex_digit_of(n % 16)) == n % 16);
        assert(hex_value(s) == hex_value(h) * 16 + n % 16);
        assert(n / 16 * 16 + n % 16 == n) by {
            vstd::arithmetic::div_mod::lemma_fundamental_div_mod(n as int, 16);
        }
        assert(forall|k: int| 0 <= k < h.len() ==> s[k] == h[k]);
    }
}

/// A sequence that trimming leaves alone is trimmed again to itself.
pub proof fn lemma_trim_idempotent(s: Seq<u8>)
    ensures
        trim(trim(s)) == trim(s),
{
    lemma_trim_front_no_leading_ws(s);
    let f = trim_front(s);
    lemma_trim_back_prefix(f);
    let t = trim_back(f);
    lemma_trim_back_no_trailing_ws(f);
    if t.len() > 0 {
        assert(!is_ws(t[0]));
        assert(trim_front(t) == t);
        assert(trim_back(t) == t);
    } else {
        assert(trim_front(t) == t);
        assert(trim_back(t) == t);
    }
}

proof fn lemma_trim_front_no_leading_ws(s: Seq<u8>)
    ensures
        trim_front(s).len() > 0 ==> !is_ws(trim_front(s)[0]),
    decreases s.len(),
{
    if s.len() > 0 && is_ws(s[0]) {
        lemma_trim_front_no_leading_ws(s.drop_first());
    }
}

proof fn lemma_trim_back_no_trailing_ws(s: Seq<u8>)
    ensures
        trim_back(s).len() > 0 ==> !is_ws(trim_back(s)[trim_back(s).len() - 1]),
    decreases s.len(),
{
    if s.len() > 0 && is_ws(s[s.len() - 1]) {
        lemma_trim_back_no_trailing_ws(s.drop_last());
    }
}

/// `trim_back` keeps a prefix: it never changes surviving elements.
proof fn lemma_trim_back_prefix(s: Seq<u8>)
    ensures
        trim_back(s).len() <= s.len(),
        forall|k: int| 0 <= k < trim_back(s).len() ==> trim_back(s)[k] == s[k],
    decreases s.len(),
{
    if s.len() > 0 && is_ws(s[s.len() - 1]) {
        lemma_trim_back_prefix(s.drop_last());
        assert(trim_back(s) == trim_back(s.drop_last()));
        assert forall|k: int| 0 <= k < trim_back(s).len() implies trim_back(s)[k] == s[k] by {
            assert(trim_back(s.drop_last())[k] == s.drop_last()[k]);
            assert(s.drop_last()[k] == s[k]);
        }
    }
}

/// A leading space is removed by `trim`.
pub proof fn lemma_trim_leading_space(u: Seq<u8>)
    ensures
        trim(seq![SP] + u) == trim(u),
{
    assert((seq![SP] + u).drop_first() =~= u);
    assert(is_ws((seq![SP] + u)[0]));
}

pub open spec fn crlf() -> Seq<u8> {
    seq![CR, LF]
}

pub open spec fn crlfcrlf() -> Seq<u8> {
    seq![CR, LF, CR, LF]
}

/// The first occurrence of CRLF CRLF in `b`: the header terminator.
pub open spec fn find_crlfcrlf(b: Seq<u8>) -> Option<int> {
    find_at(b, crlfcrlf(), 0)
}

/// The first occurrence of CRLF in `b`: a line terminator.
pub open spec fn find_crlf(b: Seq<u8>) -> Option<int> {
    find_at(b, crlf(), 0)
}

/// Scans `b` for the first occurrence of the two-byte pattern CR LF,
/// optionally followed by a second CR LF (`four` selects the four-byte
/// header terminator instead of the two-byte line terminator).
fn find_crlf_pattern(b: &[u8], four: bool) -> (r: Option<usize>)
    ensures
        match r {
            Some(i) => Some(i as int) == find_at(b@, if four { crlfcrlf() } else { crlf() }, 0),
            None => find_at(b@, if four { crlfcrlf() } else { crlf() }, 0) is None,
        },
{
    let ghost pat = if four { crlfcrlf() } else { crlf() };
    let plen: usize = if four { 4 } else { 2 };
    let n = b.len();
    if n < plen {
        return None;
    }
    let mut i: usize = 0;
    while i <= n - plen
        invariant
            n == b@.len(),
            plen == pat.len(),
            plen <= n,
            pat == (if four { crlfcrlf() } else { crlf() }),
            i <= n + 1 - plen,
            find_at(b@, pat, 0) == find_at(b@, pat, i as nat),
        decreases n - i,
    {
        let hit = if four {
            b[i] == CR && b[i + 1] == LF && b[i + 2] == CR && b[i + 3] == LF
        } else {
            b[i] == CR && b[i + 1] == LF
        };
        if hit {
            assert(b@.subrange(i as int, i + pat.len()) =~= pat);
            return Some(i);
        }
        assert(b@.subrange(i as int, i + pat.len()) != pat) by {
            if b@.subrange(i as int, i + pat.len()) == pat {
                assert(b@.subrange(i as int, i + pat.len())[0] == b@[i as int]);
                assert(b@.subrange(i as int, i + pat.len())[1] == b@[i + 1]);
                if four {
                    assert(b@.subrange(i as int, i + pat.len())[2] == b@[i + 2]);
                    assert(b@.subrange(i as int, i + pat.len())[3] == b@[i + 3]);
                }
            }
        }
        i += 1;
    }
    None
}

/// The first header terminator (CRLF CRLF) in `b`, if present.
pub fn find_header_end(b: &[u8]) -> (r: Option<usize>)
    ensures
        match r {
            Some(i) => Some(i as int) == find_crlfcrlf(b@),
            None => find_crlfcrlf(b@) is None,
        },
{
    find_crlf_pattern(b, true)
}

/// The first line terminator (CRLF) in `b`, if present.
pub fn find_line_end(b: &[u8]) -> (r: Option<usize>)
    ensures
        match r {
            Some(i) => Some(i as int) == find_crlf(b@),
            None => find_crlf(b@) is None,
        },
{
    find_crlf_pattern(b, false)
}

/// The line begins with the given header name (given in lower case, colon
/// included), compared without regard to ASCII case.
pub open spec fn line_matches(line: Seq<u8>, name: Seq<u8>) -> bool {
    line.len() >= name.len() && lower_seq(line.take(name.len() as int)) == name
}

/// The value of a matching header line: what follows the name, trimmed.
pub open spec fn line_value(line: Seq<u8>, name: Seq<u8>) -> Seq<u8> {
    trim(line.skip(name.len() as int))
}

/// Whether `line` begins with `name` (lower case, colon included), in any
/// ASCII case.
pub fn slice_has_name(line: &[u8], name: &[u8]) -> (r: bool)
    requires
        lower_seq(name@) == name@,
    ensures
        r == line_matches(line@, name@),
{
    if line.len() < name.len() {
        return false;
    }
    let head = vstd::slice::slice_subrange(line, 0, name.len());
    eq_ignore_case(head, name)
}

/// Appends all of `s` to `v`.
pub fn push_all(v: &mut Vec<u8>, s: &[u8])
    ensures
        final(v)@ == old(v)@ + s@,
{
    let mut i: usize = 0;
    while i < s.len()
        invariant
            i <= s@.len(),
            v@ == old(v)@ + s@.take(i as int),
        decreases s@.len() - i,
    {
        v.push(s[i]);
        proof {
            assert(old(v)@ + s@.take(i + 1) =~= (old(v)@ + s@.take(i as int)).push(s@[i as int]));
        }
        i += 1;
    }
    proof {
        assert(s@.take(s@.len() as int) =~= s@);
    }
}

/// A fresh vector holding `b[i..j]`.
pub fn copy_subrange(b: &[u8], i: usize, j: usize) -> (r: Vec<u8>)
    requires
        i <= j <= b@.len(),
    ensures
        r@ == b@.subrange(i as int, j as int),
{
    vstd::slice::slice_to_vec(vstd::slice::slice_subrange(b, i, j))
}

pub open spec fn is_digit(c: u8) -> bool {
    48 <= c && c <= 57
}

pub open spec fn digit_val(c: u8) -> nat {
    (c - 48) as nat
}

/// All bytes of `s` are decimal digits.
pub open spec fn all_digits(s: Seq<u8>) -> bool {
    forall|k: int| 0 <= k < s.len() ==> is_digit(s[k])
}

/// The value of a decimal digit string.
pub open spec fn dec_value(s: Seq<u8>) -> nat
    decreases s.len(),
{
    if s.len() == 0 {
        0
    } else {
        dec_value(s.drop_last()) * 10 + digit_val(s.last())
    }
}

pub open spec fn is_hex_digit(c: u8) -> bool {
    is_digit(c) || (97 <= c && c <= 102) || (65 <= c && c <= 70)
}

pub open spec fn hex_digit_val(c: u8) -> nat {
    if is_digit(c) {
        (c - 48) as nat
    } else if 97 <= c && c <= 102 {
        (c - 87) as nat
    } else {
        (c - 55) as nat
    }
}

/// All bytes of `s` are hexadecimal digits.
pub open spec fn all_hex_digits(s: Seq<u8>) -> bool {
    forall|k: int| 0 <= k < s.len() ==> is_hex_digit(s[k])
}

/// The value of a hexadecimal digit string.
pub open spec fn hex_value(s: Seq<u8>) -> nat
    decreases s.len(),
{
    if s.len() == 0 {
        0
    } else {
        hex_value(s.drop_last()) * 16 + hex_digit_val(s.last())
    }
}

proof fn lemma_dec_value_prefix_le(s: Seq<u8>, j: int)
    requires
        0 <= j <= s.len(),
    ensures
        dec_value(s.take(j)) <= dec_value(s),
    decreases s.len(),
{
    if j < s.len() {
        lemma_dec_value_prefix_le(s.drop_last(), j);
        assert(s.drop_last().take(j) =~= s.take(j));
    } else {
        assert(s.take(j) =~= s);
    }
}

proof fn lemma_hex_value_prefix_le(s: Seq<u8>, j: int)
    requires
        0 <= j <= s.len(),
    ensures
        hex_value(s.take(j)) <= hex_value(s),
    decreases s.len(),
{
    if j < s.len() {
        lemma_hex_value_prefix_le(s.drop_last(), j);
        assert(s.drop_last().take(j) =~= s.take(j));
    } else {
        assert(s.take(j) =~= s);
    }
}

/// Parses a non-empty all-decimal byte string whose value fits in `usize`;
/// any other input is rejected.
pub fn parse_decimal(s: &[u8]) -> (r: Option<usize>)
    ensures
        match r {
            Some(v) => s@.len() > 0 && all_digits(s@) && v == dec_value(s@) && dec_value(s@)
                <= usize::MAX,
            None => s@.len() == 0 || !all_digits(s@) || dec_value(s@) > usize::MAX,
        },
{
    let n = s.len();
    if n == 0 {
        return None;
    }
    let mut v: usize = 0;
    let mut i: usize = 0;
    while i < n
        invariant
            n == s@.len(),
            i <= n,
            forall|k: int| 0 <= k < i ==> is_digit(s@[k]),
            v == dec_value(s@.take(i as int)),
        decreases n - i,
    {
        let c = s[i];
        if !(48 <= c && c <= 57) {
            return None;
        }
        let step = match v.checked_mul(10) {
            Some(m) => m.checked_add((c - 48) as usize),
            None => None,
        };
        match step {
            Some(w) => {
                v = w;
            },
            None => {
                proof {
                    assert(s@.take(i + 1).drop_last() =~= s@.take(i as int));
                    assert(dec_value(s@.take(i + 1)) > usize::MAX);
                    lemma_dec_value_prefix_le(s@, i + 1);
                }
                return None;
            },
        }
        proof {
            assert(s@.take(i + 1).drop_last() =~= s@.take(i as int));
        }
        i += 1;
    }
    proof {
        assert(s@.take(n as int) =~= s@);
    }
    Some(v)
}

fn hex_digit_value(c: u8) -> (r: Option<u8>)
    ensures
        match r {
            Some(v) => is_hex_digit(c) && v == hex_digit_val(c),
            None => !is_hex_digit(c),
        },
{
    if 48 <= c && c <= 57 {
        Some(c - 48)
    } else if 97 <= c && c <= 102 {
        Some(c - 87)
    } else if 65 <= c && c <= 70 {
        Some(c - 55)
    } else {
        None
    }
}

/// Parses a non-empty all-hexadecimal byte string whose value fits in
/// `usize`; any other input is rejected.
pub fn parse_hex(s: &[u8]) -> (r: Option<usize>)
    ensures
        match r {
            Some(v) => s@.len() > 0 && all_hex_digits(s@) && v == hex_value(s@) && hex_value(s@)
                <= usize::MAX,
            None => s@.len() == 0 || !all_hex_digits(s@) || hex_value(s@) > usize::MAX,
        },
{
    let n = s.len();
    if n == 0 {
        return None;
    }
    let mut v: usize = 0;
    let mut i: usize = 0;
    while i < n
        invariant
            n == s@.len(),
            i <= n,
            forall|k: int| 0 <= k < i ==> is_hex_digit(s@[k]),
            v == hex_value(s@.take(i as int)),
        decreases n - i,
    {
        let c = s[i];
        let d = match hex_digit_value(c) {
            Some(d) => d,
            None => {
                return None;
            },
        };
        let step = match v.checked_mul(16) {
            Some(m) => m.checked_add(d as usize),
            None => None,
        };
        match step {
            Some(w) => {
                v = w;
            },
            None => {
                proof {
                    assert(s@.take(i + 1).drop_last() =~= s@.take(i as int));
                    assert(hex_value(s@.take(i + 1)) > usize::MAX);
                    lemma_hex_value_prefix_le(s@, i + 1);
                }
                return None;
            },
        }
        proof {
            assert(s@.take(i + 1).drop_last() =~= s@.take(i as int));
        }
        i += 1;
    }
    proof {
        assert(s@.take(n as int) =~= s@);
    }
    Some(v)
}

} // verus!
