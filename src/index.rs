//! Index specifications: parsing a client's header and resolving it to a
//! byte offset in the watched file.
use vstd::prelude::*;
use vstd::string::StringSliceAdditionalSpecFns;

verus! {

/// A logical starting position in the file.
#[derive(Debug, Clone, Copy, PartialEq, Eq, Structural)]
pub enum Index {
    /// An absolute offset when non-negative, counted back from the end otherwise.
    Byte(i64),
    /// The n-th line from the start when non-negative, from the end otherwise.
    Line(i64),
    /// The n-th record of a file whose lines carry a sequence-number prefix.
    SeqNum(usize),
    Start,
    End,
}

/// Why a header could not be parsed or resolved.
#[derive(Debug, Clone, Copy, PartialEq, Eq, Structural)]
pub enum Error {
    /// The first token is not a known keyword.
    UnknownIndex,
    /// Sequence-number prefixes are not enabled for this feed.
    PrefixedNotEnabled,
    /// A keyword that takes a value came without one.
    NotEnoughTokens,
    /// The value token is not a well-formed integer of the expected range.
    InvalidInteger,
    /// The index asks for more history than the file holds.
    RangeError,
}

pub open spec fn is_space(b: u8) -> bool {
    b == 0x20 || b == 0x09 || b == 0x0a || b == 0x0c || b == 0x0d
}

/// First position at or after `i` that is not whitespace.
pub open spec fn skip_space(s: Seq<u8>, i: int) -> int
    decreases s.len() - i,
{
    if 0 <= i < s.len() && is_space(s[i]) {
        skip_space(s, i + 1)
    } else {
        i
    }
}

/// First position at or after `i` that is whitespace (or the end).
pub open spec fn token_end(s: Seq<u8>, i: int) -> int
    decreases s.len() - i,
{
    if 0 <= i < s.len() && !is_space(s[i]) {
        token_end(s, i + 1)
    } else {
        i
    }
}

pub open spec fn is_digit(b: u8) -> bool {
    0x30 <= b <= 0x39
}

pub open spec fn all_digits(d: Seq<u8>) -> bool {
    forall|k: int| 0 <= k < d.len() ==> is_digit(#[trigger] d[k])
}

/// The value of a string of decimal digits.
pub open spec fn digits_value(d: Seq<u8>) -> nat
    decreases d.len(),
{
    if d.len() == 0 {
        0
    } else {
        digits_value(d.drop_last()) * 10 + (d.last() - 0x30) as nat
    }
}

pub open spec fn has_sign(t: Seq<u8>) -> bool {
    t.len() > 0 && (t[0] == 0x2d || t[0] == 0x2b)
}

pub open spec fn is_negative(t: Seq<u8>) -> bool {
    t.len() > 0 && t[0] == 0x2d
}

/// The digits of a number token, after its optional sign.
pub open spec fn magnitude_digits(t: Seq<u8>) -> Seq<u8> {
    if has_sign(t) {
        t.subrange(1, t.len() as int)
    } else {
        t
    }
}

pub open spec fn is_number(t: Seq<u8>) -> bool {
    magnitude_digits(t).len() > 0 && all_digits(magnitude_digits(t))
}

pub open spec fn number_value(t: Seq<u8>) -> int {
    if is_negative(t) {
        -digits_value(magnitude_digits(t))
    } else {
        digits_value(magnitude_digits(t)) as int
    }
}

/// A token read as an `i64`: optional sign, then decimal digits, in range.
pub open spec fn spec_parse_i64(t: Seq<u8>) -> Option<i64> {
    if is_number(t) && i64::MIN <= number_value(t) <= i64::MAX {
        Some(number_value(t) as i64)
    } else {
        None
    }
}

/// A token read as a `usize`: optional `+`, then decimal digits, in range.
pub open spec fn spec_parse_usize(t: Seq<u8>) -> Option<usize> {
    if is_number(t) && !is_negative(t) && number_value(t) <= usize::MAX {
        Some(number_value(t) as usize)
    } else {
        None
    }
}

pub open spec fn word_start() -> Seq<u8> {
    seq![0x73u8, 0x74, 0x61, 0x72, 0x74]
}

pub open spec fn word_end() -> Seq<u8> {
    seq![0x65u8, 0x6e, 0x64]
}

pub open spec fn word_byte() -> Seq<u8> {
    seq![0x62u8, 0x79, 0x74, 0x65]
}

pub open spec fn word_line() -> Seq<u8> {
    seq![0x6cu8, 0x69, 0x6e, 0x65]
}

pub open spec fn word_seqnum() -> Seq<u8> {
    seq![0x73u8, 0x65, 0x71, 0x6e, 0x75, 0x6d]
}

/// The token that starts at the first non-space byte at or after `i`.
pub open spec fn token_at(s: Seq<u8>, i: int) -> Seq<u8> {
    s.subrange(skip_space(s, i), token_end(s, skip_space(s, i)))
}

/// What a header means: `start`, `end`, `byte <int>`, `line <int>` or
/// `seqnum <uint>`; an empty (or all-space) header means `start`. Tokens
/// after the ones a keyword uses are ignored.
pub open spec fn spec_parse(s: Seq<u8>) -> Result<Index, Error> {
    let a = skip_space(s, 0);
    let kw = token_at(s, 0);
    let b = token_end(s, a);
    let val = token_at(s, b);
    if a >= s.len() {
        Ok(Index::Start)
    } else if kw == word_start() {
        Ok(Index::Start)
    } else if kw == word_end() {
        Ok(Index::End)
    } else if kw == word_byte() || kw == word_line() || kw == word_seqnum() {
        if skip_space(s, b) >= s.len() {
            Err(Error::NotEnoughTokens)
        } else if kw == word_seqnum() {
            match spec_parse_usize(val) {
                Some(n) => Ok(Index::SeqNum(n)),
                None => Err(Error::InvalidInteger),
            }
        } else {
            match spec_parse_i64(val) {
                Some(n) => Ok(
                    if kw == word_byte() {
                        Index::Byte(n)
                    } else {
                        Index::Line(n)
                    },
                ),
                None => Err(Error::InvalidInteger),
            }
        }
    } else {
        Err(Error::UnknownIndex)
    }
}

fn skip_spaces(s: &[u8], i: usize) -> (r: usize)
    requires
        i <= s@.len(),
    ensures
        r == skip_space(s@, i as int),
        i <= r <= s@.len(),
{
    let mut j: usize = i;
    while j < s.len() && (s[j] == 0x20 || s[j] == 0x09 || s[j] == 0x0a || s[j] == 0x0c || s[j]
        == 0x0d)
        invariant
            i <= j <= s@.len(),
            skip_space(s@, i as int) == skip_space(s@, j as int),
        decreases s@.len() - j,
    {
        j = j + 1;
    }
    j
}

fn find_token_end(s: &[u8], i: usize) -> (r: usize)
    requires
        i <= s@.len(),
    ensures
        r == token_end(s@, i as int),
        i <= r <= s@.len(),
{
    let mut j: usize = i;
    while j < s.len() && !(s[j] == 0x20 || s[j] == 0x09 || s[j] == 0x0a || s[j] == 0x0c || s[j]
        == 0x0d)
        invariant
            i <= j <= s@.len(),
            token_end(s@, i as int) == token_end(s@, j as int),
        decreases s@.len() - j,
    {
        j = j + 1;
    }
    j
}

} // verus!
verus! {

fn token_is(s: &[u8], a: usize, b: usize, w: &[u8]) -> (r: bool)
    requires
        a <= b <= s@.len(),
    ensures
        r == (s@.subrange(a as int, b as int) == w@),
{
    if b - a != w.len() {
        return false;
    }
    let mut k: usize = 0;
    while k < w.len()
        invariant
            a <= b <= s@.len(),
            b - a == w@.len(),
            k <= w@.len(),
            forall|j: int| 0 <= j < k ==> s@[a + j] == w@[j],
        decreases w@.len() - k,
    {
        if s[a + k] != w[k] {
            assert(s@.subrange(a as int, b as int)[k as int] != w@[k as int]);
            return false;
        }
        k = k + 1;
    }
    assert(s@.subrange(a as int, b as int) =~= w@);
    true
}

proof fn lemma_digits_prefix(d: Seq<u8>, k: int)
    requires
        0 <= k <= d.len(),
    ensures
        digits_value(d.subrange(0, k)) <= digits_value(d),
    decreases d.len(),
{
    if k < d.len() {
        lemma_digits_prefix(d.drop_last(), k);
        assert(d.drop_last().subrange(0, k) =~= d.subrange(0, k));
    } else {
        assert(d.subrange(0, k) =~= d);
    }
}

/// Reads the decimal digits `s[a..b]`, or `None` when their value exceeds `limit`.
fn parse_magnitude(s: &[u8], a: usize, b: usize, limit: u64) -> (r: Option<u64>)
    requires
        a <= b <= s@.len(),
        all_digits(s@.subrange(a as int, b as int)),
    ensures
        r == (if digits_value(s@.subrange(a as int, b as int)) <= limit {
            Some(digits_value(s@.subrange(a as int, b as int)) as u64)
        } else {
            None::<u64>
        }),
{
    let ghost d = s@.subrange(a as int, b as int);
    let mut acc: u64 = 0;
    let mut i: usize = a;
    assert(d.subrange(0, 0) =~= Seq::<u8>::empty());
    while i < b
        invariant
            a <= i <= b <= s@.len(),
            d == s@.subrange(a as int, b as int),
            all_digits(d),
            acc == digits_value(d.subrange(0, i - a)),
            acc <= limit,
        decreases b - i,
    {
        assert(is_digit(d[i - a]));
        let next: u128 = acc as u128 * 10 + (s[i] - 0x30) as u128;
        assert(d.subrange(0, i - a + 1).drop_last() =~= d.subrange(0, i - a));
        assert(next == digits_value(d.subrange(0, i - a + 1)));
        if next > limit as u128 {
            proof {
                lemma_digits_prefix(d, i - a + 1);
            }
            return None;
        }
        acc = next as u64;
        i = i + 1;
    }
    assert(d.subrange(0, b - a) =~= d);
    Some(acc)
}

/// Checks that `s[a..b]` is a number token and returns the start of its digits.
fn number_digits(s: &[u8], a: usize, b: usize) -> (r: Option<usize>)
    requires
        a <= b <= s@.len(),
    ensures
        r is Some <==> is_number(s@.subrange(a as int, b as int)),
        r matches Some(d) ==> a <= d <= b && s@.subrange(d as int, b as int) == magnitude_digits(
            s@.subrange(a as int, b as int),
        ),
{
    let ghost t = s@.subrange(a as int, b as int);
    let d0: usize = if a < b && (s[a] == 0x2d || s[a] == 0x2b) {
        a + 1
    } else {
        a
    };
    assert(s@.subrange(d0 as int, b as int) =~= magnitude_digits(t));
    if d0 == b {
        return None;
    }
    let mut k: usize = d0;
    while k < b
        invariant
            d0 <= k <= b <= s@.len(),
            t == s@.subrange(a as int, b as int),
            s@.subrange(d0 as int, b as int) == magnitude_digits(t),
            forall|j: int| d0 <= j < k ==> is_digit(#[trigger] s@[j]),
        decreases b - k,
    {
        if !(0x30 <= s[k] && s[k] <= 0x39) {
            assert(s@.subrange(d0 as int, b as int)[k - d0] == s@[k as int]);
            return None;
        }
        k = k + 1;
    }
    assert forall|j: int| 0 <= j < magnitude_digits(t).len() implies is_digit(
        #[trigger] magnitude_digits(t)[j],
    ) by {
        assert(s@.subrange(d0 as int, b as int)[j] == s@[d0 + j]);
    }
    Some(d0)
}

/// Reads `s[a..b]` as an `i64`.
fn parse_i64_token(s: &[u8], a: usize, b: usize) -> (r: Option<i64>)
    requires
        a <= b <= s@.len(),
    ensures
        r == spec_parse_i64(s@.subrange(a as int, b as int)),
{
    let ghost t = s@.subrange(a as int, b as int);
    match number_digits(s, a, b) {
        None => None,
        Some(d0) => {
            let neg = s[a] == 0x2d;
            assert(neg == is_negative(t));
            let limit: u64 = if neg {
                0x8000_0000_0000_0000
            } else {
                0x7fff_ffff_ffff_ffff
            };
            match parse_magnitude(s, d0, b, limit) {
                None => None,
                Some(m) => {
                    if neg {
                        Some((0i128 - m as i128) as i64)
                    } else {
                        Some(m as i64)
                    }
                },
            }
        },
    }
}

/// Reads `s[a..b]` as a `usize`.
fn parse_usize_token(s: &[u8], a: usize, b: usize) -> (r: Option<usize>)
    requires
        a <= b <= s@.len(),
    ensures
        r == spec_parse_usize(s@.subrange(a as int, b as int)),
{
    let ghost t = s@.subrange(a as int, b as int);
    match number_digits(s, a, b) {
        None => None,
        Some(d0) => {
            if s[a] == 0x2d {
                return None;
            }
            match parse_magnitude(s, d0, b, usize::MAX as u64) {
                None => None,
                Some(m) => Some(m as usize),
            }
        },
    }
}

impl Index {
    /// Parses a client's header line.
    pub fn parse(s: &[u8]) -> (r: Result<Index, Error>)
        ensures
            r == spec_parse(s@),
    {
        let ghost g = s@;
        let a = skip_spaces(s, 0);
        if a >= s.len() {
            return Ok(Index::Start);
        }
        let b = find_token_end(s, a);
        let w_start: [u8; 5] = [0x73u8, 0x74, 0x61, 0x72, 0x74];
        let w_end: [u8; 3] = [0x65u8, 0x6e, 0x64];
        let w_byte: [u8; 4] = [0x62u8, 0x79, 0x74, 0x65];
        let w_line: [u8; 4] = [0x6cu8, 0x69, 0x6e, 0x65];
        let w_seqnum: [u8; 6] = [0x73u8, 0x65, 0x71, 0x6e, 0x75, 0x6d];
        assert(w_start@ == word_start());
        assert(w_end@ == word_end());
        assert(w_byte@ == word_byte());
        assert(w_line@ == word_line());
        assert(w_seqnum@ == word_seqnum());
        if token_is(s, a, b, w_start.as_slice()) {
            return Ok(Index::Start);
        }
        if token_is(s, a, b, w_end.as_slice()) {
            return Ok(Index::End);
        }
        let is_byte = token_is(s, a, b, w_byte.as_slice());
        let is_line = token_is(s, a, b, w_line.as_slice());
        let is_seqnum = token_is(s, a, b, w_seqnum.as_slice());
        if !(is_byte || is_line || is_seqnum) {
            return Err(Error::UnknownIndex);
        }
        let c = skip_spaces(s, b);
        if c >= s.len() {
            return Err(Error::NotEnoughTokens);
        }
        let e = find_token_end(s, c);
        if is_seqnum {
            match parse_usize_token(s, c, e) {
                Some(n) => Ok(Index::SeqNum(n)),
                None => Err(Error::InvalidInteger),
            }
        } else {
            match parse_i64_token(s, c, e) {
                Some(n) => Ok(
                    if is_byte {
                        Index::Byte(n)
                    } else {
                        Index::Line(n)
                    },
                ),
                None => Err(Error::InvalidInteger),
            }
        }
    }
}

} // verus!

verus! {

/// Number of newline bytes in `s`.
pub open spec fn count_nl(s: Seq<u8>) -> nat
    decreases s.len(),
{
    if s.len() == 0 {
        0
    } else {
        count_nl(s.drop_last()) + (if s.last() == 0x0a {
            1nat
        } else {
            0nat
        })
    }
}

/// Where the text of the last line ends: a final newline closes the last
/// line rather than opening an empty one.
pub open spec fn lines_end(s: Seq<u8>) -> int {
    if s.len() > 0 && s.last() == 0x0a {
        s.len() - 1
    } else {
        s.len() as int
    }
}

/// Number of lines in `s`, counting an unterminated last line.
pub open spec fn line_count(s: Seq<u8>) -> nat {
    if s.len() == 0 {
        0
    } else {
        count_nl(s.subrange(0, lines_end(s))) + 1
    }
}

/// `p` is the offset right after the `n`-th newline (the start, for `n == 0`).
pub open spec fn is_after_nth_line(s: Seq<u8>, n: nat, p: int) -> bool {
    &&& 0 <= p <= s.len()
    &&& count_nl(s.subrange(0, p)) == n
    &&& n == 0 ==> p == 0
    &&& n > 0 ==> s[p - 1] == 0x0a
}

/// `p` is where the `k`-th line counted from the end begins (`k >= 1`).
pub open spec fn is_line_start_from_end(s: Seq<u8>, k: nat, p: int) -> bool {
    &&& 0 <= p <= lines_end(s)
    &&& p == 0 || s[p - 1] == 0x0a
    &&& count_nl(s.subrange(p, lines_end(s))) + 1 == k
}

/// `r` is what resolving `idx` against file content `s` gives.
pub open spec fn resolved(s: Seq<u8>, idx: Index, r: Result<Option<u64>, Error>) -> bool {
    match idx {
        Index::Byte(x) => if x >= 0 {
            r == Ok::<Option<u64>, Error>(Some(x as u64))
        } else if -x > s.len() {
            r == Err::<Option<u64>, Error>(Error::RangeError)
        } else {
            r == Ok::<Option<u64>, Error>(Some((s.len() + x) as u64))
        },
        Index::Line(n) => if n >= 0 {
            &&& r is Ok
            &&& (r == Ok::<Option<u64>, Error>(None)) <==> count_nl(s) < n
            &&& r matches Ok(Some(p)) ==> is_after_nth_line(s, n as nat, p as int)
        } else {
            &&& r != Ok::<Option<u64>, Error>(None)
            &&& r is Err <==> line_count(s) < -n
            &&& r is Err ==> r == Err::<Option<u64>, Error>(Error::RangeError)
            &&& r matches Ok(Some(p)) ==> is_line_start_from_end(s, (-n) as nat, p as int)
        },
        Index::SeqNum(_) => r == Err::<Option<u64>, Error>(Error::PrefixedNotEnabled),
        Index::Start => r == Ok::<Option<u64>, Error>(Some(0)),
        Index::End => r == Ok::<Option<u64>, Error>(Some(s.len() as u64)),
    }
}

proof fn lemma_count_concat(a: Seq<u8>, b: Seq<u8>)
    ensures
        count_nl(a + b) == count_nl(a) + count_nl(b),
    decreases b.len(),
{
    if b.len() == 0 {
        assert(a + b =~= a);
    } else {
        lemma_count_concat(a, b.drop_last());
        assert((a + b).drop_last() =~= a + b.drop_last());
    }
}

proof fn lemma_count_split(s: Seq<u8>, i: int, j: int, k: int)
    requires
        0 <= i <= j <= k <= s.len(),
    ensures
        count_nl(s.subrange(i, k)) == count_nl(s.subrange(i, j)) + count_nl(s.subrange(j, k)),
{
    lemma_count_concat(s.subrange(i, j), s.subrange(j, k));
    assert(s.subrange(i, j) + s.subrange(j, k) =~= s.subrange(i, k));
}

proof fn lemma_count_one(s: Seq<u8>, i: int)
    requires
        0 <= i < s.len(),
    ensures
        count_nl(s.subrange(i, i + 1)) == (if s[i] == 0x0a {
            1nat
        } else {
            0nat
        }),
{
    let t = s.subrange(i, i + 1);
    assert(t.drop_last() =~= Seq::<u8>::empty());
    assert(count_nl(t.drop_last()) == 0);
    assert(t.last() == s[i]);
}

/// Offset right after the `n`-th newline, or `None` while fewer exist.
fn line_forward(s: &[u8], n: u64) -> (r: Option<u64>)
    ensures
        r is None <==> count_nl(s@) < n,
        r matches Some(p) ==> is_after_nth_line(s@, n as nat, p as int),
{
    if n == 0 {
        assert(s@.subrange(0, 0) =~= Seq::<u8>::empty());
        return Some(0);
    }
    let mut c: u64 = 0;
    let mut i: usize = 0;
    assert(s@.subrange(0, 0) =~= Seq::<u8>::empty());
    while i < s.len()
        invariant
            i <= s@.len(),
            c == count_nl(s@.subrange(0, i as int)),
            c < n,
        decreases s@.len() - i,
    {
        proof {
            lemma_count_split(s@, 0, i as int, i + 1);
            lemma_count_one(s@, i as int);
        }
        if s[i] == 0x0a {
            c = c + 1;
            if c == n {
                proof {
                    lemma_count_split(s@, 0, i + 1, s@.len() as int);
                    assert(s@.subrange(0, s@.len() as int) =~= s@);
                }
                return Some((i + 1) as u64);
            }
        }
        i = i + 1;
    }
    assert(s@.subrange(0, s@.len() as int) =~= s@);
    None
}

/// Start of the `k`-th line counted from the end, or `None` when the
/// content has fewer than `k` lines.
fn line_backward(s: &[u8], k: u64) -> (r: Option<u64>)
    requires
        k >= 1,
    ensures
        r is None <==> line_count(s@) < k,
        r matches Some(p) ==> is_line_start_from_end(s@, k as nat, p as int),
{
    if s.len() == 0 {
        return None;
    }
    let e: usize = if s[s.len() - 1] == 0x0a {
        s.len() - 1
    } else {
        s.len()
    };
    let mut i: usize = e;
    let mut c: u64 = 0;
    assert(s@.subrange(e as int, e as int) =~= Seq::<u8>::empty());
    loop
        invariant
            i <= e <= s@.len(),
            s@.len() > 0,
            e == lines_end(s@),
            c == count_nl(s@.subrange(i as int, e as int)),
            c < k,
        decreases i,
    {
        if i == 0 {
            if c + 1 == k {
                return Some(0);
            } else {
                return None;
            }
        }
        proof {
            lemma_count_split(s@, i - 1, i as int, e as int);
            lemma_count_one(s@, i - 1);
        }
        if s[i - 1] == 0x0a {
            if c + 1 == k {
                proof {
                    lemma_count_split(s@, 0, i as int, e as int);
                }
                return Some(i as u64);
            }
            c = c + 1;
        }
        i = i - 1;
    }
}

/// Resolves an index to a byte offset in the file whose current content is
/// `content`. `Ok(None)` means that the index names a position beyond what
/// the file holds yet.
pub fn resolve_index(content: &[u8], idx: Index) -> (r: Result<Option<u64>, Error>)
    ensures
        resolved(content@, idx, r),
{
    match idx {
        Index::Byte(x) => {
            if x >= 0 {
                Ok(Some(x as u64))
            } else {
                let back: u64 = (0i128 - x as i128) as u64;
                if back > content.len() as u64 {
                    Err(Error::RangeError)
                } else {
                    Ok(Some(content.len() as u64 - back))
                }
            }
        },
        Index::Line(n) => {
            if n >= 0 {
                Ok(line_forward(content, n as u64))
            } else {
                match line_backward(content, (0i128 - n as i128) as u64) {
                    None => Err(Error::RangeError),
                    Some(p) => Ok(Some(p)),
                }
            }
        },
        Index::SeqNum(_) => Err(Error::PrefixedNotEnabled),
        Index::Start => Ok(Some(0)),
        Index::End => Ok(Some(content.len() as u64)),
    }
}

} // verus!

verus! {

impl Index {
    /// Parses a header given as text; the same as `parse` on its bytes.
    pub fn parse_str(s: &str) -> (r: Result<Index, Error>)
        ensures
            r == spec_parse(s.spec_bytes()),
    {
        Index::parse(s.as_bytes())
    }
}

impl std::str::FromStr for Index {
    type Err = Error;

    fn from_str(s: &str) -> Result<Index, Error> {
        Index::parse_str(s)
    }
}

} // verus!

verus! {

/// First position at or after `i` that is not a decimal digit.
pub open spec fn digit_run_end(s: Seq<u8>, i: int) -> int
    decreases s.len() - i,
{
    if 0 <= i < s.len() && is_digit(s[i]) {
        digit_run_end(s, i + 1)
    } else {
        i
    }
}

/// The sequence number that prefixes the line starting at `p`, if its
/// first byte is a digit.
pub open spec fn prefix_value(s: Seq<u8>, p: int) -> Option<nat> {
    if digit_run_end(s, p) > p {
        Some(digits_value(s.subrange(p, digit_run_end(s, p))))
    } else {
        None
    }
}

/// `p` starts a line that is already terminated by a newline.
pub open spec fn is_complete_line_start(s: Seq<u8>, p: int) -> bool {
    &&& 0 <= p < s.len()
    &&& p == 0 || s[p - 1] == 0x0a
    &&& exists|q: int| p <= q < s.len() && s[q] == 0x0a
}

/// `p` starts a complete line whose sequence number is `n`.
pub open spec fn is_record_start(s: Seq<u8>, p: int, n: nat) -> bool {
    is_complete_line_start(s, p) && prefix_value(s, p) == Some(n)
}

/// The earliest record that the file retains comes after `n`.
pub open spec fn precedes_retained(s: Seq<u8>, n: nat) -> bool {
    is_complete_line_start(s, 0) && (prefix_value(s, 0) matches Some(v) && v > n)
}

/// `r` is what resolving sequence number `n` against `s` gives.
pub open spec fn seqnum_resolved(s: Seq<u8>, n: nat, r: Result<Option<u64>, Error>) -> bool {
    if precedes_retained(s, n) {
        r == Err::<Option<u64>, Error>(Error::RangeError)
    } else if exists|p: int| is_record_start(s, p, n) {
        &&& r matches Ok(Some(p)) && is_record_start(s, p as int, n)
        &&& forall|q: int| 0 <= q < r->Ok_0->Some_0 ==> !is_record_start(s, q, n)
    } else {
        r == Ok::<Option<u64>, Error>(None)
    }
}

fn find_digit_run_end(s: &[u8], i: usize) -> (r: usize)
    requires
        i <= s@.len(),
    ensures
        r == digit_run_end(s@, i as int),
        i <= r <= s@.len(),
        all_digits(s@.subrange(i as int, r as int)),
{
    let mut j: usize = i;
    while j < s.len() && 0x30 <= s[j] && s[j] <= 0x39
        invariant
            i <= j <= s@.len(),
            digit_run_end(s@, i as int) == digit_run_end(s@, j as int),
            forall|q: int| i <= q < j ==> is_digit(#[trigger] s@[q]),
        decreases s@.len() - j,
    {
        j = j + 1;
    }
    assert forall|k: int| 0 <= k < s@.subrange(i as int, j as int).len() implies is_digit(
        #[trigger] s@.subrange(i as int, j as int)[k],
    ) by {
        assert(s@.subrange(i as int, j as int)[k] == s@[i + k]);
    }
    j
}

fn find_newline(s: &[u8], i: usize) -> (r: Option<usize>)
    requires
        i <= s@.len(),
    ensures
        r matches Some(j) ==> i <= j < s@.len() && s@[j as int] == 0x0a && forall|q: int|
            i <= q < j ==> s@[q] != 0x0a,
        r is None ==> forall|q: int| i <= q < s@.len() ==> s@[q] != 0x0a,
{
    let mut j: usize = i;
    while j < s.len()
        invariant
            i <= j <= s@.len(),
            forall|q: int| i <= q < j ==> s@[q] != 0x0a,
        decreases s@.len() - j,
    {
        if s[j] == 0x0a {
            return Some(j);
        }
        j = j + 1;
    }
    None
}

/// Offset of the line whose sequence number is `n`, in a file whose lines
/// carry increasing sequence-number prefixes.
fn seqnum_offset(s: &[u8], n: usize) -> (r: Result<Option<u64>, Error>)
    ensures
        seqnum_resolved(s@, n as nat, r),
{
    let len: usize = s.len();
    let mut i: usize = 0;
    loop
        invariant
            len == s@.len(),
            i <= s@.len(),
            i == 0 || s@[i - 1] == 0x0a,
            forall|q: int| 0 <= q < i ==> !is_record_start(s@, q, n as nat),
            i > 0 ==> !precedes_retained(s@, n as nat),
        decreases s@.len() - i,
    {
        let j = match find_newline(s, i) {
            None => {
                assert forall|q: int| 0 <= q implies !is_record_start(s@, q, n as nat) by {
                    if q >= i && is_complete_line_start(s@, q) {
                        let w = choose|w: int| q <= w < s@.len() && s@[w] == 0x0a;
                        assert(s@[w] != 0x0a);
                    }
                }
                assert(i == 0 ==> !is_complete_line_start(s@, 0)) by {
                    if i == 0 && is_complete_line_start(s@, 0) {
                        let w = choose|w: int| 0 <= w < s@.len() && s@[w] == 0x0a;
                        assert(s@[w] != 0x0a);
                    }
                }
                return Ok(None);
            },
            Some(j) => j,
        };
        assert(is_complete_line_start(s@, i as int));
        let k = find_digit_run_end(s, i);
        if k > i {
            match parse_magnitude(s, i, k, n as u64) {
                Some(v) => {
                    if v == n as u64 {
                        return Ok(Some(i as u64));
                    }
                },
                None => {
                    if i == 0 {
                        return Err(Error::RangeError);
                    }
                },
            }
        }
        assert forall|q: int| 0 <= q < j + 1 implies !is_record_start(s@, q, n as nat) by {
            if i < q <= j {
                assert(s@[q - 1] != 0x0a);
            }
        }
        i = j + 1;
    }
}

/// `r` is what resolving `idx` against `s` gives, where `prefixed` says
/// whether lines carry sequence-number prefixes.
pub open spec fn resolved_with(s: Seq<u8>, idx: Index, prefixed: bool, r: Result<
    Option<u64>,
    Error,
>) -> bool {
    match idx {
        Index::SeqNum(n) => if prefixed {
            seqnum_resolved(s, n as nat, r)
        } else {
            resolved(s, idx, r)
        },
        _ => resolved(s, idx, r),
    }
}

/// Resolves an index as `resolve_index` does, reading sequence numbers from
/// line prefixes when `prefixed` is set.
pub fn resolve_index_with(content: &[u8], idx: Index, prefixed: bool) -> (r: Result<
    Option<u64>,
    Error,
>)
    ensures
        resolved_with(content@, idx, prefixed, r),
{
    match idx {
        Index::SeqNum(n) => {
            if prefixed {
                seqnum_offset(content, n)
            } else {
                resolve_index(content, idx)
            }
        },
        _ => resolve_index(content, idx),
    }
}

} // verus!
