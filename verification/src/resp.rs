//! RESP framing: byte-level grammar of bulk strings and arrays, the
//! incremental decoder, and the reply encoder.
//!
//! A request is a RESP array of bulk strings: `*<count>\r\n` followed by
//! `<count>` frames of the form `$<len>\r\n<len raw bytes>\r\n`. Replies are
//! simple strings (`+PONG\r\n`, `+OK\r\n`), bulk strings, or the null bulk
//! `$-1\r\n`. Decoding is incremental: a buffer that merely ends too early
//! yields `Incomplete`, while a byte that can never start a valid frame
//! yields `Error`.

use vstd::prelude::*;

verus! {

/// Tag byte of a bulk string frame (`$`).
pub const TAG_BULK: u8 = 36;
/// Tag byte of an array frame (`*`).
pub const TAG_ARRAY: u8 = 42;
/// Carriage return.
pub const BYTE_CR: u8 = 13;
/// Line feed.
pub const BYTE_LF: u8 = 10;
/// ASCII `0`.
pub const BYTE_ZERO: u8 = 48;

/// Upper bound on a bulk string payload length; longer lengths are a
/// protocol error.
pub const MAX_BULK_LEN: u64 = 536870912;
/// Upper bound on an array element count; larger counts are a protocol
/// error.
pub const MAX_ARRAY_LEN: u64 = 1024;
/// Upper bound on the digit count of a length field; more digits are a
/// protocol error. Ten digits keep every accepted length below `10^10`.
pub const MAX_LEN_DIGITS: u64 = 10;

/// Whether `b` is an ASCII decimal digit.
pub open spec fn is_digit(b: u8) -> bool {
    BYTE_ZERO <= b && b <= BYTE_ZERO + 9
}

/// The first index at or after `i` whose byte is not an ASCII digit, or
/// `s.len()` if digits run to the end.
pub open spec fn digits_end(s: Seq<u8>, i: int) -> int
    decreases s.len() - i,
{
    if 0 <= i && i < s.len() {
        if is_digit(s[i]) {
            digits_end(s, i + 1)
        } else {
            i
        }
    } else {
        i
    }
}

/// The number denoted by the ASCII digits `s[i..j)`, most significant first.
pub open spec fn digits_val(s: Seq<u8>, i: int, j: int) -> int
    decreases j - i,
{
    if i >= j {
        0
    } else {
        digits_val(s, i, j - 1) * 10 + (s[j - 1] - BYTE_ZERO)
    }
}

/// `10^n`.
pub open spec fn pow10(n: nat) -> int
    decreases n,
{
    if n == 0 {
        1
    } else {
        10 * pow10((n - 1) as nat)
    }
}

/// The ASCII decimal digits of `n`, most significant first, no leading
/// zeros (except for `n == 0` itself).
pub open spec fn dec_digits(n: int) -> Seq<u8>
    decreases n,
{
    if n < 10 {
        seq![(BYTE_ZERO + if 0 <= n { n } else { 0 }) as u8]
    } else {
        dec_digits(n / 10).push((BYTE_ZERO + n % 10) as u8)
    }
}

/// `digits_end` stays within `[i, s.len()]` and delimits a maximal digit run.
pub proof fn lemma_digits_end(s: Seq<u8>, i: int)
    requires
        0 <= i <= s.len(),
    ensures
        i <= digits_end(s, i) <= s.len(),
        forall|k: int| i <= k < digits_end(s, i) ==> is_digit(s[k]),
        digits_end(s, i) < s.len() ==> !is_digit(s[digits_end(s, i)]),
    decreases s.len() - i,
{
    if i < s.len() && is_digit(s[i]) {
        lemma_digits_end(s, i + 1);
    }
}

/// A maximal digit run determines `digits_end`: if `s[i..j)` are digits and
/// `s[j]` is not (or `j` is the end), then `digits_end(s, i) == j`.
pub proof fn lemma_digits_end_of_run(s: Seq<u8>, i: int, j: int)
    requires
        0 <= i <= j <= s.len(),
        forall|k: int| i <= k < j ==> is_digit(s[k]),
        j < s.len() ==> !is_digit(s[j]),
    ensures
        digits_end(s, i) == j,
    decreases j - i,
{
    if i < j {
        lemma_digits_end_of_run(s, i + 1, j);
    }
}

/// `digits_val` reads only `s[i..j)`: sequences that agree there give the
/// same value.
pub proof fn lemma_digits_val_agree(s: Seq<u8>, t: Seq<u8>, i: int, j: int)
    requires
        0 <= i,
        j <= s.len(),
        j <= t.len(),
        forall|k: int| i <= k < j ==> s[k] == t[k],
    ensures
        digits_val(s, i, j) == digits_val(t, i, j),
    decreases j - i,
{
    if i < j {
        lemma_digits_val_agree(s, t, i, j - 1);
    }
}

/// A run of `d` digits denotes a value in `[0, 10^d)`.
pub proof fn lemma_digits_val_bound(s: Seq<u8>, i: int, j: int)
    requires
        0 <= i <= j <= s.len(),
        forall|k: int| i <= k < j ==> is_digit(s[k]),
    ensures
        0 <= digits_val(s, i, j) < pow10((j - i) as nat),
    decreases j - i,
{
    if i < j {
        lemma_digits_val_bound(s, i, j - 1);
        assert(pow10((j - i) as nat) == 10 * pow10((j - i - 1) as nat));
    }
}

/// `pow10` is monotone in the exponent.
pub proof fn lemma_pow10_le(a: nat, b: nat)
    requires
        a <= b,
    ensures
        pow10(a) <= pow10(b),
    decreases b,
{
    if a < b {
        lemma_pow10_le(a, (b - 1) as nat);
        assert(pow10(b) == 10 * pow10((b - 1) as nat));
        assert(pow10(a) >= 1) by {
            lemma_pow10_pos(a);
        }
    }
}

/// `pow10` is positive.
pub proof fn lemma_pow10_pos(n: nat)
    ensures
        pow10(n) >= 1,
    decreases n,
{
    if n > 0 {
        lemma_pow10_pos((n - 1) as nat);
    }
}

/// The decimal digits of `n` are digits, and reading them back yields `n`.
pub proof fn lemma_dec_digits_val(n: int)
    requires
        0 <= n,
    ensures
        dec_digits(n).len() >= 1,
        forall|k: int| 0 <= k < dec_digits(n).len() ==> is_digit(dec_digits(n)[k]),
        digits_val(dec_digits(n), 0, dec_digits(n).len() as int) == n,
    decreases n,
{
    if n < 10 {
        assert(digits_val(dec_digits(n), 0, 0) == 0);
        assert(digits_val(dec_digits(n), 0, 1) == dec_digits(n)[0] - BYTE_ZERO);
    } else {
        lemma_dec_digits_val(n / 10);
        let s = dec_digits(n);
        let p = dec_digits(n / 10);
        let l = p.len() as int;
        assert(s == p.push((BYTE_ZERO + n % 10) as u8));
        assert(forall|k: int| 0 <= k < l ==> s[k] == p[k]);
        lemma_digits_val_agree(s, p, 0, l);
        assert(digits_val(s, 0, l + 1) == digits_val(s, 0, l) * 10 + (s[l] - BYTE_ZERO));
    }
}

/// `n < 10^d` has at most `d` decimal digits (for `d >= 1`).
pub proof fn lemma_dec_digits_len(n: int, d: nat)
    requires
        0 <= n,
        d >= 1,
        n < pow10(d),
    ensures
        dec_digits(n).len() <= d,
    decreases n,
{
    if n >= 10 {
        assert(pow10(d) == 10 * pow10((d - 1) as nat));
        assert(d >= 2) by {
            if d == 1 {
                assert(pow10(1nat) == 10 * pow10(0nat));
            }
        }
        lemma_dec_digits_len(n / 10, (d - 1) as nat);
    }
}

/// Appends the decimal digits of `n` to `out`.
pub fn push_decimal(n: u64, out: &mut Vec<u8>)
    ensures
        final(out)@ == old(out)@ + dec_digits(n as int),
    decreases n,
{
    if n < 10 {
        out.push(BYTE_ZERO + n as u8);
        proof {
            assert(final(out)@ =~= old(out)@ + dec_digits(n as int));
        }
    } else {
        push_decimal(n / 10, out);
        out.push(BYTE_ZERO + (n % 10) as u8);
        proof {
            assert(final(out)@ =~= old(out)@ + dec_digits(n as int));
        }
    }
}

/// The simple-string reply to PING: `+PONG\r\n`.
pub open spec fn pong_reply() -> Seq<u8> {
    seq![43u8, 80u8, 79u8, 78u8, 71u8, BYTE_CR, BYTE_LF]
}

/// The simple-string reply to SET: `+OK\r\n`.
pub open spec fn ok_reply() -> Seq<u8> {
    seq![43u8, 79u8, 75u8, BYTE_CR, BYTE_LF]
}

/// The null bulk reply for a missing or expired key: `$-1\r\n`.
pub open spec fn null_reply() -> Seq<u8> {
    seq![TAG_BULK, 45u8, 49u8, BYTE_CR, BYTE_LF]
}

/// The bulk string frame carrying `payload`:
/// `$<len>\r\n<payload>\r\n`.
pub open spec fn bulk_frame(payload: Seq<u8>) -> Seq<u8> {
    seq![TAG_BULK] + dec_digits(payload.len() as int) + seq![BYTE_CR, BYTE_LF] + payload + seq![
        BYTE_CR,
        BYTE_LF,
    ]
}

/// Outcome of parsing a construct out of a byte sequence, at the
/// specification level: either the parsed value together with the index just
/// past the bytes it occupies, or a request to wait for more bytes, or a
/// protocol error.
pub enum SpecParse<T> {
    Done { val: T, end: int },
    More,
    Fail,
}

/// Parses a length field at `i`: a non-empty digit run terminated by CRLF.
/// `Done` carries the value and the index just past the LF. Runs longer than
/// [`MAX_LEN_DIGITS`] digits are a protocol error.
pub open spec fn spec_scan_len(s: Seq<u8>, i: int) -> SpecParse<int> {
    let j = digits_end(s, i);
    if j >= s.len() {
        SpecParse::More
    } else if j == i {
        SpecParse::Fail
    } else if s[j] != BYTE_CR {
        SpecParse::Fail
    } else if j - i > MAX_LEN_DIGITS {
        SpecParse::Fail
    } else if j + 1 >= s.len() {
        SpecParse::More
    } else if s[j + 1] != BYTE_LF {
        SpecParse::Fail
    } else {
        SpecParse::Done { val: digits_val(s, i, j), end: j + 2 }
    }
}

/// Parses a bulk string frame at `i`: `$<len>\r\n<len bytes>\r\n`.
/// `Done` carries the payload bytes. Lengths above [`MAX_BULK_LEN`] are a
/// protocol error.
pub open spec fn spec_parse_bulk(s: Seq<u8>, i: int) -> SpecParse<Seq<u8>> {
    if i >= s.len() {
        SpecParse::More
    } else if s[i] != TAG_BULK {
        SpecParse::Fail
    } else {
        match spec_scan_len(s, i + 1) {
            SpecParse::More => SpecParse::More,
            SpecParse::Fail => SpecParse::Fail,
            SpecParse::Done { val: n, end: h } => {
                if n > MAX_BULK_LEN {
                    SpecParse::Fail
                } else if h + n + 2 > s.len() {
                    SpecParse::More
                } else if s[h + n] != BYTE_CR || s[h + n + 1] != BYTE_LF {
                    SpecParse::Fail
                } else {
                    SpecParse::Done { val: s.subrange(h, h + n), end: h + n + 2 }
                }
            },
        }
    }
}

/// Outcome of the executable length scan; mirrors [`spec_scan_len`].
pub enum LenScan {
    Found { n: u64, next: usize },
    Incomplete,
    Error,
}

/// The specification-level reading of a [`LenScan`].
pub open spec fn len_scan_view(r: LenScan) -> SpecParse<int> {
    match r {
        LenScan::Found { n, next } => SpecParse::Done { val: n as int, end: next as int },
        LenScan::Incomplete => SpecParse::More,
        LenScan::Error => SpecParse::Fail,
    }
}

/// Scans a CRLF-terminated length field starting at `i`.
pub fn scan_length(buf: &[u8], i: usize) -> (r: LenScan)
    requires
        i <= buf@.len(),
    ensures
        len_scan_view(r) == spec_scan_len(buf@, i as int),
{
    proof {
        lemma_digits_end(buf@, i as int);
    }
    let ghost de = digits_end(buf@, i as int);
    let mut j: usize = i;
    while j < buf.len() && BYTE_ZERO <= buf[j] && buf[j] <= BYTE_ZERO + 9
        invariant
            i <= j <= buf@.len(),
            forall|k: int| i <= k < j ==> is_digit(buf@[k]),
            de == digits_end(buf@, j as int),
            de == digits_end(buf@, i as int),
        decreases buf@.len() - j,
    {
        j += 1;
    }
    proof {
        assert(digits_end(buf@, j as int) == j as int);
        assert(de == j as int);
    }
    if j >= buf.len() {
        return LenScan::Incomplete;
    }
    if j == i {
        return LenScan::Error;
    }
    if buf[j] != BYTE_CR {
        return LenScan::Error;
    }
    if (j - i) as u64 > MAX_LEN_DIGITS {
        return LenScan::Error;
    }
    if j + 1 >= buf.len() {
        return LenScan::Incomplete;
    }
    if buf[j + 1] != BYTE_LF {
        return LenScan::Error;
    }
    proof {
        lemma_digits_val_bound(buf@, i as int, j as int);
        lemma_pow10_le((j - i) as nat, 10nat);
        assert(pow10(10nat) == 10000000000) by {
            reveal_with_fuel(pow10, 11);
        }
    }
    let mut n: u64 = 0;
    let mut k: usize = i;
    while k < j
        invariant
            i <= k <= j <= buf@.len(),
            forall|q: int| i <= q < j ==> is_digit(buf@[q]),
            n == digits_val(buf@, i as int, k as int),
            0 <= n < pow10((k - i) as nat),
            j - i <= MAX_LEN_DIGITS,
        decreases j - k,
    {
        proof {
            lemma_digits_val_bound(buf@, i as int, k as int);
            lemma_pow10_le((k - i) as nat, 9nat);
            assert(pow10(9nat) == 1000000000) by {
                reveal_with_fuel(pow10, 10);
            }
            assert(pow10(((k + 1) - i) as nat) == 10 * pow10((k - i) as nat));
        }
        n = n * 10 + (buf[k] - BYTE_ZERO) as u64;
        k += 1;
    }
    LenScan::Found { n, next: j + 2 }
}

/// Outcome of the executable bulk string decoder; mirrors
/// [`spec_parse_bulk`].
pub enum BulkParse {
    Complete { payload: Vec<u8>, end: usize },
    Incomplete,
    Error,
}

/// The specification-level reading of a [`BulkParse`].
pub open spec fn bulk_parse_view(r: BulkParse) -> SpecParse<Seq<u8>> {
    match r {
        BulkParse::Complete { payload, end } => SpecParse::Done {
            val: payload@,
            end: end as int,
        },
        BulkParse::Incomplete => SpecParse::More,
        BulkParse::Error => SpecParse::Fail,
    }
}

/// Decodes one bulk string frame starting at `ptr`, reporting the payload
/// and the index just past the frame, or the need for more bytes, or a
/// protocol error.
pub fn parse_bulk_string(buf: &[u8], ptr: usize) -> (r: BulkParse)
    requires
        ptr <= buf@.len(),
    ensures
        bulk_parse_view(r) == spec_parse_bulk(buf@, ptr as int),
{
    if ptr >= buf.len() {
        return BulkParse::Incomplete;
    }
    if buf[ptr] != TAG_BULK {
        return BulkParse::Error;
    }
    let scan = scan_length(buf, ptr + 1);
    match scan {
        LenScan::Incomplete => BulkParse::Incomplete,
        LenScan::Error => BulkParse::Error,
        LenScan::Found { n, next } => {
            proof {
                lemma_scan_len_bounds(buf@, ptr + 1);
            }
            if n > MAX_BULK_LEN {
                return BulkParse::Error;
            }
            let nn = n as usize;
            if nn > buf.len() - next || buf.len() - next - nn < 2 {
                proof {
                    assert(next + n + 2 > buf@.len());
                }
                return BulkParse::Incomplete;
            }
            if buf[next + nn] != BYTE_CR || buf[next + nn + 1] != BYTE_LF {
                return BulkParse::Error;
            }
            let blen = buf.len();
            let mut payload: Vec<u8> = Vec::new();
            let mut k: usize = 0;
            while k < nn
                invariant
                    k <= nn,
                    blen == buf@.len(),
                    next + nn + 2 <= blen,
                    payload@ == buf@.subrange(next as int, next + k),
                decreases nn - k,
            {
                payload.push(buf[next + k]);
                proof {
                    assert(payload@ =~= buf@.subrange(next as int, next + k + 1));
                }
                k += 1;
            }
            BulkParse::Complete { payload, end: next + nn + 2 }
        },
    }
}

/// A successful length scan ends past its starting point and within the
/// buffer, and yields a value below `10^10`.
pub proof fn lemma_scan_len_bounds(s: Seq<u8>, i: int)
    requires
        0 <= i,
        spec_scan_len(s, i) is Done,
    ensures
        i + 3 <= spec_scan_len(s, i)->Done_end <= s.len(),
        0 <= spec_scan_len(s, i)->Done_val < 10000000000,
{
    lemma_digits_end(s, i);
    let j = digits_end(s, i);
    lemma_digits_val_bound(s, i, j);
    lemma_pow10_le((j - i) as nat, 10nat);
    assert(pow10(10nat) == 10000000000) by {
        reveal_with_fuel(pow10, 11);
    }
}

/// A successfully decoded bulk string occupies at least six bytes and ends
/// within the buffer, and its payload length is within [`MAX_BULK_LEN`].
pub proof fn lemma_parse_bulk_bounds(s: Seq<u8>, i: int)
    requires
        0 <= i,
        spec_parse_bulk(s, i) is Done,
    ensures
        i + 6 <= spec_parse_bulk(s, i)->Done_end <= s.len(),
        spec_parse_bulk(s, i)->Done_val.len() <= MAX_BULK_LEN,
{
    lemma_scan_len_bounds(s, i + 1);
}

/// Builds the `+PONG\r\n` reply.
pub fn encode_pong() -> (r: Vec<u8>)
    ensures
        r@ == pong_reply(),
{
    let mut v: Vec<u8> = Vec::new();
    v.push(43);
    v.push(80);
    v.push(79);
    v.push(78);
    v.push(71);
    v.push(BYTE_CR);
    v.push(BYTE_LF);
    proof {
        assert(v@ =~= pong_reply());
    }
    v
}

/// Builds the `+OK\r\n` reply.
pub fn encode_ok() -> (r: Vec<u8>)
    ensures
        r@ == ok_reply(),
{
    let mut v: Vec<u8> = Vec::new();
    v.push(43);
    v.push(79);
    v.push(75);
    v.push(BYTE_CR);
    v.push(BYTE_LF);
    proof {
        assert(v@ =~= ok_reply());
    }
    v
}

/// Builds the `$-1\r\n` null bulk reply.
pub fn encode_null() -> (r: Vec<u8>)
    ensures
        r@ == null_reply(),
{
    let mut v: Vec<u8> = Vec::new();
    v.push(TAG_BULK);
    v.push(45);
    v.push(49);
    v.push(BYTE_CR);
    v.push(BYTE_LF);
    proof {
        assert(v@ =~= null_reply());
    }
    v
}

/// Builds the bulk string frame for `payload`.
pub fn encode_bulk(payload: &[u8]) -> (r: Vec<u8>)
    ensures
        r@ == bulk_frame(payload@),
{
    let mut v: Vec<u8> = Vec::new();
    v.push(TAG_BULK);
    push_decimal(payload.len() as u64, &mut v);
    v.push(BYTE_CR);
    v.push(BYTE_LF);
    let mut i: usize = 0;
    while i < payload.len()
        invariant
            i <= payload@.len(),
            v@ == seq![TAG_BULK] + dec_digits(payload@.len() as int) + seq![BYTE_CR, BYTE_LF]
                + payload@.subrange(0, i as int),
        decreases payload@.len() - i,
    {
        v.push(payload[i]);
        proof {
            assert(v@ =~= seq![TAG_BULK] + dec_digits(payload@.len() as int) + seq![
                BYTE_CR,
                BYTE_LF,
            ] + payload@.subrange(0, i + 1));
        }
        i += 1;
    }
    v.push(BYTE_CR);
    v.push(BYTE_LF);
    proof {
        assert(payload@.subrange(0, payload@.len() as int) =~= payload@);
        assert(v@ =~= bulk_frame(payload@));
    }
    v
}

/// Parses `k` consecutive bulk string frames starting at `i`.
pub open spec fn spec_parse_elems(s: Seq<u8>, i: int, k: nat) -> SpecParse<Seq<Seq<u8>>>
    decreases k,
{
    if k == 0 {
        SpecParse::Done { val: Seq::empty(), end: i }
    } else {
        match spec_parse_bulk(s, i) {
            SpecParse::More => SpecParse::More,
            SpecParse::Fail => SpecParse::Fail,
            SpecParse::Done { val: p, end: e } => match spec_parse_elems(s, e, (k - 1) as nat) {
                SpecParse::More => SpecParse::More,
                SpecParse::Fail => SpecParse::Fail,
                SpecParse::Done { val: rest, end: e2 } => SpecParse::Done {
                    val: seq![p] + rest,
                    end: e2,
                },
            },
        }
    }
}

/// Parses an array frame at `i`: `*<count>\r\n` followed by `count` bulk
/// string frames. A count of zero or above [`MAX_ARRAY_LEN`] is a protocol
/// error.
pub open spec fn spec_parse_array(s: Seq<u8>, i: int) -> SpecParse<Seq<Seq<u8>>> {
    if i >= s.len() {
        SpecParse::More
    } else if s[i] != TAG_ARRAY {
        SpecParse::Fail
    } else {
        match spec_scan_len(s, i + 1) {
            SpecParse::More => SpecParse::More,
            SpecParse::Fail => SpecParse::Fail,
            SpecParse::Done { val: n, end: h } => {
                if n == 0 || n > MAX_ARRAY_LEN {
                    SpecParse::Fail
                } else {
                    spec_parse_elems(s, h, n as nat)
                }
            },
        }
    }
}

/// Prepends already-parsed elements to the outcome of parsing the rest.
pub open spec fn prepend_elems(pre: Seq<Seq<u8>>, r: SpecParse<Seq<Seq<u8>>>) -> SpecParse<
    Seq<Seq<u8>>,
> {
    match r {
        SpecParse::Done { val, end } => SpecParse::Done { val: pre + val, end },
        SpecParse::More => SpecParse::More,
        SpecParse::Fail => SpecParse::Fail,
    }
}

/// Splitting a run of `k` frames after the first `pre.len()` of them:
/// parsing the remaining frames and prepending `pre` gives the whole run.
proof fn lemma_elems_step(s: Seq<u8>, i: int, e: int, p: Seq<u8>, pre: Seq<Seq<u8>>, k: nat)
    requires
        k >= 1,
        spec_parse_bulk(s, i) == (SpecParse::Done::<Seq<u8>> { val: p, end: e }),
    ensures
        prepend_elems(pre, spec_parse_elems(s, i, k)) == prepend_elems(
            pre + seq![p],
            spec_parse_elems(s, e, (k - 1) as nat),
        ),
{
    match spec_parse_elems(s, e, (k - 1) as nat) {
        SpecParse::Done { val: rest, end: e2 } => {
            assert(pre + (seq![p] + rest) =~= (pre + seq![p]) + rest);
        },
        SpecParse::More => {},
        SpecParse::Fail => {},
    }
}

/// Outcome of the executable array decoder; mirrors [`spec_parse_array`].
pub enum ArrayParse {
    Complete { elems: Vec<Vec<u8>>, end: usize },
    Incomplete,
    Error,
}

/// The specification-level reading of an [`ArrayParse`].
pub open spec fn array_parse_view(r: ArrayParse) -> SpecParse<Seq<Seq<u8>>> {
    match r {
        ArrayParse::Complete { elems, end } => SpecParse::Done {
            val: elems.deep_view(),
            end: end as int,
        },
        ArrayParse::Incomplete => SpecParse::More,
        ArrayParse::Error => SpecParse::Fail,
    }
}

/// Decodes one array of bulk strings starting at `ptr`, reporting the
/// elements and the index just past the frame, or the need for more bytes,
/// or a protocol error.
#[verifier::loop_isolation(false)]
pub fn parse_array(buf: &[u8], ptr: usize) -> (r: ArrayParse)
    requires
        ptr <= buf@.len(),
    ensures
        array_parse_view(r) == spec_parse_array(buf@, ptr as int),
{
    if ptr >= buf.len() {
        return ArrayParse::Incomplete;
    }
    if buf[ptr] != TAG_ARRAY {
        return ArrayParse::Error;
    }
    let scan = scan_length(buf, ptr + 1);
    match scan {
        LenScan::Incomplete => ArrayParse::Incomplete,
        LenScan::Error => ArrayParse::Error,
        LenScan::Found { n, next } => {
            proof {
                lemma_scan_len_bounds(buf@, ptr + 1);
            }
            if n == 0 || n > MAX_ARRAY_LEN {
                return ArrayParse::Error;
            }
            let nn = n as usize;
            let mut elems: Vec<Vec<u8>> = Vec::new();
            let mut pos: usize = next;
            let mut k: usize = 0;
            while k < nn
                invariant
                    k <= nn,
                    pos <= buf@.len(),
                    elems.deep_view().len() == k,
                    spec_parse_elems(buf@, next as int, nn as nat) == prepend_elems(
                        elems.deep_view(),
                        spec_parse_elems(buf@, pos as int, (nn - k) as nat),
                    ),
                decreases nn - k,
            {
                let b = parse_bulk_string(buf, pos);
                match b {
                    BulkParse::Incomplete => {
                        proof {
                            assert(spec_parse_elems(buf@, pos as int, (nn - k) as nat)
                                is More);
                            assert(spec_parse_elems(buf@, next as int, nn as nat) is More);
                        }
                        return ArrayParse::Incomplete;
                    },
                    BulkParse::Error => {
                        proof {
                            assert(spec_parse_elems(buf@, pos as int, (nn - k) as nat)
                                is Fail);
                            assert(spec_parse_elems(buf@, next as int, nn as nat) is Fail);
                        }
                        return ArrayParse::Error;
                    },
                    BulkParse::Complete { payload, end } => {
                        proof {
                            lemma_parse_bulk_bounds(buf@, pos as int);
                            lemma_elems_step(
                                buf@,
                                pos as int,
                                end as int,
                                payload@,
                                elems.deep_view(),
                                (nn - k) as nat,
                            );
                        }
                        let ghost old_elems = elems.deep_view();
                        elems.push(payload);
                        proof {
                            assert(elems.deep_view() =~~= old_elems + seq![payload@]);
                        }
                        pos = end;
                        k += 1;
                    },
                }
            }
            proof {
                assert(spec_parse_elems(buf@, pos as int, 0nat) == SpecParse::Done::<
                    Seq<Seq<u8>>,
                > { val: Seq::empty(), end: pos as int });
                assert(elems.deep_view() + Seq::<Seq<u8>>::empty() =~~= elems.deep_view());
            }
            ArrayParse::Complete { elems, end: pos }
        },
    }
}

/// A successfully decoded run of frames ends within the buffer, and past its
/// start when at least one frame was read.
pub proof fn lemma_parse_elems_bounds(s: Seq<u8>, i: int, k: nat)
    requires
        0 <= i <= s.len(),
        spec_parse_elems(s, i, k) is Done,
    ensures
        i <= spec_parse_elems(s, i, k)->Done_end <= s.len(),
        k >= 1 ==> i < spec_parse_elems(s, i, k)->Done_end,
        spec_parse_elems(s, i, k)->Done_val.len() == k,
    decreases k,
{
    if k >= 1 {
        lemma_parse_bulk_bounds(s, i);
        let e = spec_parse_bulk(s, i)->Done_end;
        lemma_parse_elems_bounds(s, e, (k - 1) as nat);
    }
}

/// A successfully decoded array occupies at least ten bytes and ends within
/// the buffer, with between one and [`MAX_ARRAY_LEN`] elements.
pub proof fn lemma_parse_array_bounds(s: Seq<u8>, i: int)
    requires
        0 <= i,
        spec_parse_array(s, i) is Done,
    ensures
        i + 10 <= spec_parse_array(s, i)->Done_end <= s.len(),
        1 <= spec_parse_array(s, i)->Done_val.len() <= MAX_ARRAY_LEN,
{
    lemma_scan_len_bounds(s, i + 1);
    let h = spec_scan_len(s, i + 1)->Done_end;
    let n = spec_scan_len(s, i + 1)->Done_val;
    lemma_parse_elems_bounds(s, h, n as nat);
    lemma_parse_bulk_bounds(s, h);
    let e = spec_parse_bulk(s, h)->Done_end;
    lemma_parse_elems_bounds(s, e, (n - 1) as nat);
}

/// Copies a byte slice into a fresh vector.
pub fn copy_bytes(v: &[u8]) -> (r: Vec<u8>)
    ensures
        r@ == v@,
{
    let mut out: Vec<u8> = Vec::new();
    let mut i: usize = 0;
    while i < v.len()
        invariant
            i <= v@.len(),
            out@ == v@.subrange(0, i as int),
        decreases v@.len() - i,
    {
        out.push(v[i]);
        proof {
            assert(out@ =~= v@.subrange(0, i + 1));
        }
        i += 1;
    }
    proof {
        assert(out@ =~= v@);
    }
    out
}

/// Whether two byte slices hold the same bytes.
pub fn bytes_eq(a: &[u8], b: &[u8]) -> (r: bool)
    ensures
        r == (a@ == b@),
{
    if a.len() != b.len() {
        return false;
    }
    let mut i: usize = 0;
    while i < a.len()
        invariant
            i <= a@.len(),
            a@.len() == b@.len(),
            forall|k: int| 0 <= k < i ==> a@[k] == b@[k],
        decreases a@.len() - i,
    {
        if a[i] != b[i] {
            return false;
        }
        i += 1;
    }
    proof {
        assert(a@ =~= b@);
    }
    true
}

/// Appends all of `src` to `dst`.
pub fn append_bytes(dst: &mut Vec<u8>, src: &[u8])
    ensures
        final(dst)@ == old(dst)@ + src@,
{
    let mut i: usize = 0;
    while i < src.len()
        invariant
            i <= src@.len(),
            dst@ == old(dst)@ + src@.subrange(0, i as int),
        decreases src@.len() - i,
    {
        dst.push(src[i]);
        proof {
            assert(dst@ =~= old(dst)@ + src@.subrange(0, i + 1));
        }
        i += 1;
    }
    proof {
        assert(old(dst)@ + src@.subrange(0, src@.len() as int) =~= old(dst)@ + src@);
    }
}

/// Copies `v` without its first `n` bytes into a fresh vector.
pub fn drop_prefix(v: &Vec<u8>, n: usize) -> (r: Vec<u8>)
    requires
        n <= v@.len(),
    ensures
        r@ == v@.skip(n as int),
{
    let mut out: Vec<u8> = Vec::new();
    let mut i: usize = n;
    while i < v.len()
        invariant
            n <= i <= v@.len(),
            out@ == v@.subrange(n as int, i as int),
        decreases v@.len() - i,
    {
        out.push(v[i]);
        proof {
            assert(out@ =~= v@.subrange(n as int, i + 1));
        }
        i += 1;
    }
    proof {
        assert(out@ =~= v@.skip(n as int));
    }
    out
}

/// A digit run that ends inside the buffer is unaffected by appending
/// bytes.
pub proof fn lemma_digits_end_extend(s: Seq<u8>, ext: Seq<u8>, i: int)
    requires
        0 <= i,
        digits_end(s, i) < s.len(),
    ensures
        digits_end(s + ext, i) == digits_end(s, i),
    decreases s.len() - i,
{
    let t = s + ext;
    if i < s.len() {
        assert(t[i] == s[i]);
        if is_digit(s[i]) {
            lemma_digits_end_extend(s, ext, i + 1);
        }
    }
}

/// `digits_val` agrees across a shift: if `s[i..j)` equals `t[0..j-i)`
/// elementwise, the two denote the same number.
pub proof fn lemma_digits_val_shift(s: Seq<u8>, i: int, j: int, t: Seq<u8>)
    requires
        0 <= i <= j,
        forall|k: int| i <= k < j ==> s[k] == t[k - i],
    ensures
        digits_val(s, i, j) == digits_val(t, 0, j - i),
    decreases j - i,
{
    if i < j {
        lemma_digits_val_shift(s, i, j - 1, t);
    }
}

/// A length scan that has decided (found its field, or found it malformed)
/// is unaffected by appending bytes; only an undecided scan can change.
pub proof fn lemma_scan_len_extend(s: Seq<u8>, ext: Seq<u8>, i: int)
    requires
        0 <= i,
    ensures
        spec_scan_len(s, i) is Done ==> spec_scan_len(s + ext, i) == spec_scan_len(s, i),
        spec_scan_len(s, i) is Fail ==> spec_scan_len(s + ext, i) is Fail,
{
    let t = s + ext;
    let j = digits_end(s, i);
    if j < s.len() {
        lemma_digits_end(s, i);
        lemma_digits_end_extend(s, ext, i);
        lemma_digits_val_agree(s, t, i, j);
    }
}

/// A bulk string parse that has decided is unaffected by appending bytes.
pub proof fn lemma_parse_bulk_extend(s: Seq<u8>, ext: Seq<u8>, i: int)
    requires
        0 <= i,
    ensures
        spec_parse_bulk(s, i) is Done ==> spec_parse_bulk(s + ext, i) == spec_parse_bulk(s, i),
        spec_parse_bulk(s, i) is Fail ==> spec_parse_bulk(s + ext, i) is Fail,
{
    let t = s + ext;
    if i < s.len() {
        assert(t[i] == s[i]);
        lemma_scan_len_extend(s, ext, i + 1);
        match spec_scan_len(s, i + 1) {
            SpecParse::Done { val: n, end: h } => {
                lemma_scan_len_bounds(s, i + 1);
                if n <= MAX_BULK_LEN && h + n + 2 <= s.len() {
                    assert(t[h + n] == s[h + n]);
                    assert(t[h + n + 1] == s[h + n + 1]);
                    assert(t.subrange(h, h + n) =~= s.subrange(h, h + n));
                }
            },
            SpecParse::More => {},
            SpecParse::Fail => {},
        }
    }
}

/// A run-of-frames parse that has decided is unaffected by appending
/// bytes.
pub proof fn lemma_parse_elems_extend(s: Seq<u8>, ext: Seq<u8>, i: int, k: nat)
    requires
        0 <= i,
    ensures
        spec_parse_elems(s, i, k) is Done ==> spec_parse_elems(s + ext, i, k) == spec_parse_elems(
            s,
            i,
            k,
        ),
        spec_parse_elems(s, i, k) is Fail ==> spec_parse_elems(s + ext, i, k) is Fail,
    decreases k,
{
    if k > 0 {
        lemma_parse_bulk_extend(s, ext, i);
        match spec_parse_bulk(s, i) {
            SpecParse::Done { val: p, end: e } => {
                lemma_parse_bulk_bounds(s, i);
                lemma_parse_elems_extend(s, ext, e, (k - 1) as nat);
            },
            SpecParse::More => {},
            SpecParse::Fail => {},
        }
    }
}

/// An array parse that has decided is unaffected by appending bytes.
pub proof fn lemma_parse_array_extend(s: Seq<u8>, ext: Seq<u8>, i: int)
    requires
        0 <= i,
    ensures
        spec_parse_array(s, i) is Done ==> spec_parse_array(s + ext, i) == spec_parse_array(s, i),
        spec_parse_array(s, i) is Fail ==> spec_parse_array(s + ext, i) is Fail,
{
    let t = s + ext;
    if i < s.len() {
        assert(t[i] == s[i]);
        lemma_scan_len_extend(s, ext, i + 1);
        match spec_scan_len(s, i + 1) {
            SpecParse::Done { val: n, end: h } => {
                lemma_scan_len_bounds(s, i + 1);
                if 0 < n <= MAX_ARRAY_LEN {
                    lemma_parse_elems_extend(s, ext, h, n as nat);
                }
            },
            SpecParse::More => {},
            SpecParse::Fail => {},
        }
    }
}

/// The concatenated bulk string frames of `elems`, in order.
pub open spec fn bulk_frames(elems: Seq<Seq<u8>>) -> Seq<u8>
    decreases elems.len(),
{
    if elems.len() == 0 {
        Seq::empty()
    } else {
        bulk_frame(elems[0]) + bulk_frames(elems.skip(1))
    }
}

/// The array frame carrying `elems`: `*<count>\r\n` followed by their bulk
/// frames.
pub open spec fn array_frame(elems: Seq<Seq<u8>>) -> Seq<u8> {
    seq![TAG_ARRAY] + dec_digits(elems.len() as int) + seq![BYTE_CR, BYTE_LF] + bulk_frames(elems)
}

/// Scanning a buffer that carries the decimal digits of `n` followed by
/// CRLF at `i` finds exactly `n`.
pub proof fn lemma_scan_at(s: Seq<u8>, i: int, n: int)
    requires
        0 <= i,
        0 <= n,
        dec_digits(n).len() <= MAX_LEN_DIGITS,
        i + dec_digits(n).len() + 2 <= s.len(),
        forall|k: int| 0 <= k < dec_digits(n).len() ==> s[i + k] == dec_digits(n)[k],
        s[i + dec_digits(n).len()] == BYTE_CR,
        s[i + dec_digits(n).len() + 1] == BYTE_LF,
    ensures
        spec_scan_len(s, i) == (SpecParse::Done::<int> {
            val: n,
            end: i + dec_digits(n).len() + 2,
        }),
{
    let d = dec_digits(n);
    let dl = d.len() as int;
    lemma_dec_digits_val(n);
    assert forall|k: int| i <= k < i + dl implies is_digit(s[k]) by {
        assert(s[i + (k - i)] == d[k - i]);
    }
    lemma_digits_end_of_run(s, i, i + dl);
    assert forall|k: int| i <= k < i + dl implies s[k] == d[k - i] by {
        assert(s[i + (k - i)] == d[k - i]);
    }
    lemma_digits_val_shift(s, i, i + dl, d);
}

/// Parsing a buffer that carries the bulk frame of `v` at `i` yields `v`
/// and consumes exactly the frame.
pub proof fn lemma_bulk_frame_at(s: Seq<u8>, i: int, v: Seq<u8>)
    requires
        0 <= i,
        v.len() <= MAX_BULK_LEN,
        i + bulk_frame(v).len() <= s.len(),
        forall|k: int| 0 <= k < bulk_frame(v).len() ==> s[i + k] == bulk_frame(v)[k],
    ensures
        spec_parse_bulk(s, i) == (SpecParse::Done::<Seq<u8>> {
            val: v,
            end: i + bulk_frame(v).len(),
        }),
{
    let f = bulk_frame(v);
    let d = dec_digits(v.len() as int);
    let dl = d.len() as int;
    let vl = v.len() as int;
    assert(pow10(10nat) == 10000000000) by {
        reveal_with_fuel(pow10, 11);
    }
    lemma_dec_digits_len(vl, 10nat);
    assert(f.len() == 1 + dl + 2 + vl + 2);
    assert(f[0] == TAG_BULK);
    assert(forall|k: int| 0 <= k < dl ==> f[1 + k] == d[k]);
    assert(f[1 + dl] == BYTE_CR);
    assert(f[1 + dl + 1] == BYTE_LF);
    assert(forall|k: int| 0 <= k < vl ==> f[1 + dl + 2 + k] == v[k]);
    assert(f[1 + dl + 2 + vl] == BYTE_CR);
    assert(f[1 + dl + 2 + vl + 1] == BYTE_LF);
    assert(s[i] == TAG_BULK) by {
        assert(s[i + 0] == f[0]);
    }
    assert forall|k: int| 0 <= k < dl implies s[i + 1 + k] == d[k] by {
        assert(s[i + (1 + k)] == f[1 + k]);
    }
    assert(s[i + 1 + dl] == BYTE_CR) by {
        assert(s[i + (1 + dl)] == f[1 + dl]);
    }
    assert(s[i + 1 + dl + 1] == BYTE_LF) by {
        assert(s[i + (1 + dl + 1)] == f[1 + dl + 1]);
    }
    lemma_scan_at(s, i + 1, vl);
    let h = i + 1 + dl + 2;
    assert(s[h + vl] == BYTE_CR) by {
        assert(s[i + (1 + dl + 2 + vl)] == f[1 + dl + 2 + vl]);
    }
    assert(s[h + vl + 1] == BYTE_LF) by {
        assert(s[i + (1 + dl + 2 + vl + 1)] == f[1 + dl + 2 + vl + 1]);
    }
    assert(s.subrange(h, h + vl) =~= v) by {
        assert forall|k: int| 0 <= k < vl implies s[h + k] == v[k] by {
            assert(s[i + (1 + dl + 2 + k)] == f[1 + dl + 2 + k]);
        }
    }
}

/// Parsing a buffer that carries the concatenated bulk frames of `elems`
/// at `i` yields them all and consumes exactly those frames.
pub proof fn lemma_bulk_frames_at(s: Seq<u8>, i: int, elems: Seq<Seq<u8>>)
    requires
        0 <= i,
        forall|j: int| 0 <= j < elems.len() ==> #[trigger] elems[j].len() <= MAX_BULK_LEN,
        i + bulk_frames(elems).len() <= s.len(),
        forall|k: int| 0 <= k < bulk_frames(elems).len() ==> s[i + k] == bulk_frames(elems)[k],
    ensures
        spec_parse_elems(s, i, elems.len() as nat) == (SpecParse::Done::<Seq<Seq<u8>>> {
            val: elems,
            end: i + bulk_frames(elems).len(),
        }),
    decreases elems.len(),
{
    if elems.len() == 0 {
        assert(elems =~= Seq::<Seq<u8>>::empty());
    } else {
        let f0 = bulk_frame(elems[0]);
        let frest = bulk_frames(elems.skip(1));
        let bf = bulk_frames(elems);
        assert(bf == f0 + frest);
        assert forall|k: int| 0 <= k < f0.len() implies s[i + k] == f0[k] by {
            assert(s[i + k] == bf[k]);
        }
        lemma_bulk_frame_at(s, i, elems[0]);
        let e = i + f0.len() as int;
        assert(forall|j: int|
            0 <= j < elems.skip(1).len() ==> #[trigger] elems.skip(1)[j].len() <= MAX_BULK_LEN);
        assert forall|k: int| 0 <= k < frest.len() implies s[e + k] == frest[k] by {
            assert(s[i + (f0.len() + k)] == bf[f0.len() + k]);
        }
        lemma_bulk_frames_at(s, e, elems.skip(1));
        assert(seq![elems[0]] + elems.skip(1) =~= elems);
    }
}

/// Parsing a buffer that begins with the array frame of `elems` yields
/// them and consumes exactly the frame, whatever follows it.
pub proof fn lemma_array_frame_parse(s: Seq<u8>, elems: Seq<Seq<u8>>)
    requires
        1 <= elems.len() <= MAX_ARRAY_LEN,
        forall|j: int| 0 <= j < elems.len() ==> #[trigger] elems[j].len() <= MAX_BULK_LEN,
        array_frame(elems).len() <= s.len(),
        forall|k: int| 0 <= k < array_frame(elems).len() ==> s[k] == array_frame(elems)[k],
    ensures
        spec_parse_array(s, 0) == (SpecParse::Done::<Seq<Seq<u8>>> {
            val: elems,
            end: array_frame(elems).len() as int,
        }),
{
    let af = array_frame(elems);
    let cnt = elems.len() as int;
    let d = dec_digits(cnt);
    let dl = d.len() as int;
    let bf = bulk_frames(elems);
    assert(pow10(10nat) == 10000000000) by {
        reveal_with_fuel(pow10, 11);
    }
    lemma_dec_digits_len(cnt, 10nat);
    assert(af.len() == 1 + dl + 2 + bf.len());
    assert(af[0] == TAG_ARRAY);
    assert(forall|k: int| 0 <= k < dl ==> af[1 + k] == d[k]);
    assert(af[1 + dl] == BYTE_CR);
    assert(af[1 + dl + 1] == BYTE_LF);
    assert(s[0] == TAG_ARRAY) by {
        assert(s[0int] == af[0]);
    }
    assert forall|k: int| 0 <= k < dl implies s[1 + k] == d[k] by {
        assert(s[1 + k] == af[1 + k]);
    }
    lemma_scan_at(s, 1, cnt);
    let h = 1 + dl + 2;
    assert forall|k: int| 0 <= k < bf.len() implies s[h + k] == bf[k] by {
        assert(s[h + k] == af[h + k]);
    }
    lemma_bulk_frames_at(s, h, elems);
}

} // verus!
