//! Reading a replay document: a text of four named sections, `params`,
//! `world`, `initial_state` and `inputs`. The document is taken as bytes; a
//! section is found by its quoted name and its matching brackets.
use vstd::prelude::*;
use vstd::slice::slice_to_vec;
use vstd::string::StringSliceAdditionalSpecFns;

verus! {

/// What is wrong with a replay document.
#[derive(Copy, Clone, Debug, PartialEq, Eq, Structural)]
pub enum Fault {
    /// The quoted key does not occur.
    MissingKey,
    /// No opening bracket follows the key.
    MissingOpener,
    /// The opening bracket is never matched.
    Unclosed,
    /// No colon follows the key.
    MissingColon,
    /// What follows the colon is not a number.
    InvalidNumber,
    /// An entry of `inputs` is not a whole number from 0 to 255.
    InvalidInput,
}

/// A fault, and the key at which it was found.
#[derive(Debug)]
pub struct ReplayError {
    pub fault: Fault,
    pub key: Vec<u8>,
}

/// The key between double quotes, as it stands in a document.
pub open spec fn quoted(key: Seq<u8>) -> Seq<u8> {
    seq![0x22u8] + key + seq![0x22u8]
}

/// The least index from `from` on at which `needle` occurs in `hay`.
pub open spec fn find_from(hay: Seq<u8>, needle: Seq<u8>, from: int) -> Option<int>
    decreases hay.len() - from + 1,
{
    if from < 0 || from + needle.len() > hay.len() {
        None
    } else if hay.subrange(from, from + needle.len()) == needle {
        Some(from)
    } else {
        find_from(hay, needle, from + 1)
    }
}

/// The least index from `from` on at which the byte `b` stands.
pub open spec fn find_byte_from(hay: Seq<u8>, b: u8, from: int) -> Option<int>
    decreases hay.len() - from,
{
    if from < 0 || from >= hay.len() {
        None
    } else if hay[from] == b {
        Some(from)
    } else {
        find_byte_from(hay, b, from + 1)
    }
}

/// The index of the closing bracket that brings the nesting depth back to 0,
/// scanning from `i` on with `depth` brackets open. A byte that is both the
/// opening and the closing bracket opens.
pub open spec fn closing_from(s: Seq<u8>, open: u8, close: u8, i: int, depth: int) -> Option<int>
    decreases s.len() - i,
{
    if i < 0 || i >= s.len() {
        None
    } else if s[i] == open {
        closing_from(s, open, close, i + 1, depth + 1)
    } else if s[i] == close {
        if depth == 1 {
            Some(i)
        } else {
            closing_from(s, open, close, i + 1, depth - 1)
        }
    } else {
        closing_from(s, open, close, i + 1, depth)
    }
}

/// Where the section under `key` lies: the bounds of what stands between the
/// first `open` after the quoted key and the bracket that closes it.
pub open spec fn section_bounds(src: Seq<u8>, key: Seq<u8>, open: u8, close: u8) -> Result<
    (int, int),
    Fault,
> {
    let k = quoted(key);
    match find_from(src, k, 0) {
        None => Err(Fault::MissingKey),
        Some(ki) => match find_byte_from(src, open, ki + k.len()) {
            None => Err(Fault::MissingOpener),
            Some(oi) => match closing_from(src, open, close, oi, 0) {
                None => Err(Fault::Unclosed),
                Some(end) => Ok((oi + 1, end)),
            },
        },
    }
}

/// The first occurrence of `needle` in `hay` from `from` on.
pub fn find(hay: &[u8], needle: &[u8], from: usize) -> (r: Option<usize>)
    ensures
        match r {
            Some(i) => find_from(hay@, needle@, from as int) == Some(i as int) && i + needle@.len()
                <= hay@.len(),
            None => find_from(hay@, needle@, from as int) is None,
        },
{
    let n: usize = hay.len();
    let m: usize = needle.len();
    if m > n || from > n - m {
        return None;
    }
    let mut i: usize = from;
    while i <= n - m
        invariant
            n == hay@.len(),
            m == needle@.len(),
            m <= n,
            from <= i,
            find_from(hay@, needle@, from as int) == find_from(hay@, needle@, i as int),
        decreases n - i,
    {
        let mut j: usize = 0;
        while j < m && hay[i + j] == needle[j]
            invariant
                n == hay@.len(),
                m == needle@.len(),
                i + m <= n,
                j <= m,
                forall|k: int| 0 <= k < j ==> hay@[i + k] == needle@[k],
            decreases m - j,
        {
            j = j + 1;
        }
        if j == m {
            assert(hay@.subrange(i as int, i + m) =~= needle@);
            return Some(i);
        }
        assert(hay@.subrange(i as int, i + m)[j as int] != needle@[j as int]);
        i = i + 1;
    }
    None
}

/// The first place from `from` on at which the byte `b` stands.
pub fn find_byte(hay: &[u8], b: u8, from: usize) -> (r: Option<usize>)
    ensures
        match r {
            Some(i) => find_byte_from(hay@, b, from as int) == Some(i as int) && from <= i
                < hay@.len() && hay@[i as int] == b,
            None => find_byte_from(hay@, b, from as int) is None,
        },
{
    let n: usize = hay.len();
    let mut i: usize = from;
    while i < n
        invariant
            n == hay@.len(),
            from <= i,
            find_byte_from(hay@, b, from as int) == find_byte_from(hay@, b, i as int),
        decreases n - i,
    {
        if hay[i] == b {
            return Some(i);
        }
        i = i + 1;
    }
    None
}

/// The key between double quotes.
pub fn quote(key: &[u8]) -> (r: Vec<u8>)
    ensures
        r@ == quoted(key@),
{
    let mut k: Vec<u8> = Vec::new();
    k.push(0x22);
    let mut i: usize = 0;
    while i < key.len()
        invariant
            i <= key@.len(),
            k@ == seq![0x22u8] + key@.subrange(0, i as int),
        decreases key@.len() - i,
    {
        k.push(key[i]);
        assert(k@ =~= seq![0x22u8] + key@.subrange(0, i + 1));
        i = i + 1;
    }
    k.push(0x22);
    assert(key@.subrange(0, key@.len() as int) =~= key@);
    k
}

/// The section of `src` under `key`: what stands between the first `open`
/// after the quoted key and the bracket that closes it, brackets nested in
/// between counted.
pub fn section<'a>(src: &'a [u8], key: &[u8], open: u8, close: u8) -> (r: Result<
    &'a [u8],
    ReplayError,
>)
    ensures
        match r {
            Ok(s) => match section_bounds(src@, key@, open, close) {
                Ok((from, to)) => 0 <= from <= to <= src@.len() && s@ == src@.subrange(from, to),
                Err(_) => false,
            },
            Err(e) => section_bounds(src@, key@, open, close) == Err::<(int, int), Fault>(e.fault)
                && e.key@ == key@,
        },
{
    let n: usize = src.len();
    let k = quote(key);
    let found = find(src, k.as_slice(), 0);
    let ki: usize = match found {
        Some(ki) => ki,
        None => {
            return Err(ReplayError { fault: Fault::MissingKey, key: slice_to_vec(key) });
        },
    };
    assert(ki + k@.len() <= src@.len());
    let opener = find_byte(src, open, ki + k.len());
    let oi: usize = match opener {
        Some(oi) => oi,
        None => {
            return Err(ReplayError { fault: Fault::MissingOpener, key: slice_to_vec(key) });
        },
    };
    match find_closing(src, open, close, oi) {
        Some(end) => Ok(&src[oi + 1..end]),
        None => Err(ReplayError { fault: Fault::Unclosed, key: slice_to_vec(key) }),
    }
}

/// The bracket that closes the one at `at`.
pub(crate) fn find_closing(src: &[u8], open: u8, close: u8, at: usize) -> (r: Option<usize>)
    requires
        at < src@.len(),
        src@[at as int] == open,
    ensures
        match r {
            Some(end) => closing_from(src@, open, close, at as int, 0) == Some(end as int) && at
                < end < src@.len(),
            None => closing_from(src@, open, close, at as int, 0) is None,
        },
{
    let n: usize = src.len();
    let mut i: usize = at + 1;
    let mut depth: usize = 1;
    while i < n
        invariant
            n == src@.len(),
            at < i <= n,
            1 <= depth <= i - at,
            closing_from(src@, open, close, at as int, 0) == closing_from(
                src@,
                open,
                close,
                i as int,
                depth as int,
            ),
        decreases n - i,
    {
        let ch: u8 = src[i];
        if ch == open {
            depth = depth + 1;
        } else if ch == close {
            if depth == 1 {
                return Some(i);
            }
            depth = depth - 1;
        }
        i = i + 1;
    }
    None
}

/// How many bytes the white-space character takes that begins at `i` and
/// ends by `hi`; 0 if none begins there. White space is what Unicode calls so,
/// in UTF-8: the ASCII ones, U+0085, U+00A0, U+1680, U+2000 to U+200A, U+2028,
/// U+2029, U+202F, U+205F and U+3000.
pub open spec fn space_at(s: Seq<u8>, i: int, hi: int) -> int {
    if i < 0 || i >= hi || hi > s.len() {
        0
    } else if (0x09 <= s[i] <= 0x0d) || s[i] == 0x20 {
        1
    } else if i + 1 < hi && s[i] == 0xc2 && (s[i + 1] == 0x85 || s[i + 1] == 0xa0) {
        2
    } else if i + 2 < hi && wide_space(s[i], s[i + 1], s[i + 2]) {
        3
    } else {
        0
    }
}

/// The white-space characters of three bytes.
pub open spec fn wide_space(a: u8, b: u8, c: u8) -> bool {
    ||| a == 0xe1 && b == 0x9a && c == 0x80
    ||| a == 0xe2 && b == 0x80 && (0x80 <= c <= 0x8a || c == 0xa8 || c == 0xa9 || c == 0xaf)
    ||| a == 0xe2 && b == 0x81 && c == 0x9f
    ||| a == 0xe3 && b == 0x80 && c == 0x80
}

/// How many bytes the white-space character takes that ends just before `hi`
/// and begins at `lo` or later; 0 if none ends there.
pub open spec fn space_before(s: Seq<u8>, lo: int, hi: int) -> int {
    if space_at(s, hi - 1, hi) == 1 && lo <= hi - 1 {
        1
    } else if space_at(s, hi - 2, hi) == 2 && lo <= hi - 2 {
        2
    } else if space_at(s, hi - 3, hi) == 3 && lo <= hi - 3 {
        3
    } else {
        0
    }
}

/// Where `s[lo..hi]` begins once the white space at its front is dropped.
pub open spec fn trim_lo(s: Seq<u8>, lo: int, hi: int) -> int
    decreases hi - lo,
{
    if lo < hi && space_at(s, lo, hi) > 0 {
        trim_lo(s, lo + space_at(s, lo, hi), hi)
    } else {
        lo
    }
}

/// Where `s[lo..hi]` ends once the white space at its back is dropped.
pub open spec fn trim_hi(s: Seq<u8>, lo: int, hi: int) -> int
    decreases hi - lo,
{
    if lo < hi && space_before(s, lo, hi) > 0 {
        trim_hi(s, lo, hi - space_before(s, lo, hi))
    } else {
        hi
    }
}

/// The number that a run of decimal digits writes.
pub open spec fn digits_value(d: Seq<u8>) -> nat
    decreases d.len(),
{
    if d.len() == 0 {
        0
    } else {
        digits_value(d.drop_last()) * 10 + (d.last() - 0x30) as nat
    }
}

pub open spec fn all_digits(d: Seq<u8>) -> bool {
    forall|i: int| 0 <= i < d.len() ==> 0x30 <= #[trigger] d[i] <= 0x39
}

/// The whole number from 0 to 255 that `t` writes: digits, at least one, after
/// an optional plus sign.
pub open spec fn byte_value(t: Seq<u8>) -> Option<u8> {
    if t.len() > 0 && t[0] == 0x2b {
        digits_byte(t.skip(1))
    } else {
        digits_byte(t)
    }
}

/// The whole number from 0 to 255 that the digits `d` write.
pub open spec fn digits_byte(d: Seq<u8>) -> Option<u8> {
    if d.len() == 0 || !all_digits(d) || digits_value(d) > 255 {
        None
    } else {
        Some(digits_value(d) as u8)
    }
}

/// The entries of a comma-separated list from `i` on: each entry without the
/// white space around it, empty entries passed over, each of the others a
/// whole number from 0 to 255. `None` if one of them is not.
pub open spec fn entries_from(s: Seq<u8>, i: int) -> Option<Seq<u8>>
    decreases s.len() - i + 1,
{
    if i < 0 || i > s.len() {
        None
    } else {
        let j = match find_byte_from(s, 0x2c, i) {
            Some(j) => j,
            None => s.len() as int,
        };
        if !(i <= j <= s.len()) {
            None
        } else {
            let lo = trim_lo(s, i, j);
            let hi = trim_hi(s, lo, j);
            let rest = if j < s.len() {
                entries_from(s, j + 1)
            } else {
                Some(Seq::<u8>::empty())
            };
            if lo >= hi {
                rest
            } else {
                match (byte_value(s.subrange(lo, hi)), rest) {
                    (Some(v), Some(r)) => Some(seq![v] + r),
                    _ => None,
                }
            }
        }
    }
}

/// What [`parse_inputs`] returns.
pub open spec fn inputs_of(src: Seq<u8>) -> Result<Seq<u8>, Fault> {
    match section_bounds(src, "inputs".spec_bytes(), 0x5b, 0x5d) {
        Err(f) => Err(f),
        Ok((from, to)) => match entries_from(src.subrange(from, to), 0) {
            Some(v) => Ok(v),
            None => Err(Fault::InvalidInput),
        },
    }
}

/// A prefix of a run of digits writes no greater a number than the run.
pub proof fn lemma_digits_value_grows(d: Seq<u8>, k: int)
    requires
        0 <= k <= d.len(),
    ensures
        digits_value(d.take(k)) <= digits_value(d),
    decreases d.len(),
{
    if k == d.len() {
        assert(d.take(k) =~= d);
    } else {
        lemma_digits_value_grows(d.drop_last(), k);
        assert(d.drop_last().take(k) =~= d.take(k));
    }
}

/// The index of the first white-space-free byte of `s[lo..hi]`.
pub fn skip_space(s: &[u8], lo: usize, hi: usize) -> (r: usize)
    requires
        lo <= hi <= s@.len(),
    ensures
        r == trim_lo(s@, lo as int, hi as int),
        lo <= r <= hi,
{
    let mut i: usize = lo;
    loop
        invariant
            lo <= i <= hi <= s@.len(),
            trim_lo(s@, lo as int, hi as int) == trim_lo(s@, i as int, hi as int),
        decreases hi - i,
    {
        if i >= hi {
            return i;
        }
        let a: u8 = s[i];
        let w: usize = if (0x09 <= a && a <= 0x0d) || a == 0x20 {
            1
        } else if hi - i > 1 && a == 0xc2 && (s[i + 1] == 0x85 || s[i + 1] == 0xa0) {
            2
        } else if hi - i > 2 && is_wide_space(a, s[i + 1], s[i + 2]) {
            3
        } else {
            0
        };
        assert(w == space_at(s@, i as int, hi as int));
        if w == 0 {
            return i;
        }
        i = i + w;
    }
}

/// Whether the three bytes are a white-space character.
pub fn is_wide_space(a: u8, b: u8, c: u8) -> (r: bool)
    ensures
        r == wide_space(a, b, c),
{
    (a == 0xe1 && b == 0x9a && c == 0x80) || (a == 0xe2 && b == 0x80 && ((0x80 <= c && c <= 0x8a)
        || c == 0xa8 || c == 0xa9 || c == 0xaf)) || (a == 0xe2 && b == 0x81 && c == 0x9f) || (a
        == 0xe3 && b == 0x80 && c == 0x80)
}

/// The index just past the last white-space-free byte of `s[lo..hi]`.
pub fn skip_space_back(s: &[u8], lo: usize, hi: usize) -> (r: usize)
    requires
        lo <= hi <= s@.len(),
    ensures
        r == trim_hi(s@, lo as int, hi as int),
        lo <= r <= hi,
{
    let mut j: usize = hi;
    loop
        invariant
            lo <= j <= hi <= s@.len(),
            trim_hi(s@, lo as int, hi as int) == trim_hi(s@, lo as int, j as int),
        decreases j - lo,
    {
        if j <= lo {
            return j;
        }
        let z: u8 = s[j - 1];
        let w: usize = if (0x09 <= z && z <= 0x0d) || z == 0x20 {
            1
        } else if j - lo >= 2 && s[j - 2] == 0xc2 && (z == 0x85 || z == 0xa0) {
            2
        } else if j - lo >= 3 && is_wide_space(s[j - 3], s[j - 2], z) {
            3
        } else {
            0
        };
        assert(w == space_before(s@, lo as int, j as int));
        if w == 0 {
            return j;
        }
        j = j - w;
    }
}

/// The whole number from 0 to 255 that `s[lo..hi]` writes.
pub fn parse_byte(s: &[u8], lo: usize, hi: usize) -> (r: Option<u8>)
    requires
        lo <= hi <= s@.len(),
    ensures
        r == byte_value(s@.subrange(lo as int, hi as int)),
{
    let ghost t = s@.subrange(lo as int, hi as int);
    let start: usize = if lo < hi && s[lo] == 0x2b {
        lo + 1
    } else {
        lo
    };
    let ghost d = s@.subrange(start as int, hi as int);
    assert(d =~= if t.len() > 0 && t[0] == 0x2b {
        t.skip(1)
    } else {
        t
    });
    assert(byte_value(t) == digits_byte(d));
    if start == hi {
        return None;
    }
    let mut acc: u32 = 0;
    let mut i: usize = start;
    while i < hi
        invariant
            start <= i <= hi <= s@.len(),
            d == s@.subrange(start as int, hi as int),
            byte_value(s@.subrange(lo as int, hi as int)) == digits_byte(d),
            all_digits(d.take(i - start)),
            acc == digits_value(d.take(i - start)),
            acc <= 255,
        decreases hi - i,
    {
        let c: u8 = s[i];
        if c < 0x30 || c > 0x39 {
            assert(d[i - start] == c);
            assert(!all_digits(d));
            return None;
        }
        assert(d.take(i - start + 1).drop_last() =~= d.take(i - start));
        assert(d.take(i - start + 1).last() == c);
        let next: u32 = acc * 10 + (c - 0x30) as u32;
        if next > 255 {
            proof {
                lemma_digits_value_grows(d, i - start + 1);
            }
            return None;
        }
        acc = next;
        i = i + 1;
    }
    assert(d.take(hi - start) =~= d);
    Some(acc as u8)
}

/// The entries of a comma-separated list of whole numbers from 0 to 255.
pub fn parse_entries(arr: &[u8]) -> (r: Option<Vec<u8>>)
    ensures
        match r {
            Some(v) => entries_from(arr@, 0) == Some(v@),
            None => entries_from(arr@, 0) is None,
        },
{
    let n: usize = arr.len();
    let mut out: Vec<u8> = Vec::new();
    let mut i: usize = 0;
    loop
        invariant
            n == arr@.len(),
            i <= n,
            entries_from(arr@, 0) == match entries_from(arr@, i as int) {
                Some(r) => Some(out@ + r),
                None => None,
            },
        decreases n - i + 1,
    {
        let comma = find_byte(arr, 0x2c, i);
        let j: usize = match comma {
            Some(j) => j,
            None => n,
        };
        let lo: usize = skip_space(arr, i, j);
        let hi: usize = skip_space_back(arr, lo, j);
        let ghost before = out@;
        if lo < hi {
            match parse_byte(arr, lo, hi) {
                Some(v) => {
                    out.push(v);
                },
                None => {
                    return None;
                },
            }
        }
        if j >= n {
            assert(out@ + Seq::<u8>::empty() =~= out@);
            assert(before + Seq::<u8>::empty() =~= before);
            return Some(out);
        }
        proof {
            let rest = entries_from(arr@, j + 1);
            if rest is Some && lo < hi {
                let v = out@.last();
                assert(before + (seq![v] + rest.unwrap()) =~= out@ + rest.unwrap());
            }
        }
        i = j + 1;
    }
}

/// The button bits of every tick: the entries of the section `inputs`, a
/// comma-separated list in square brackets.
pub fn parse_inputs(src: &[u8]) -> (r: Result<Vec<u8>, ReplayError>)
    ensures
        match r {
            Ok(v) => inputs_of(src@) == Ok::<Seq<u8>, Fault>(v@),
            Err(e) => inputs_of(src@) == Err::<Seq<u8>, Fault>(e.fault) && e.key@
                == "inputs".spec_bytes(),
        },
{
    let key = "inputs".as_bytes();
    let arr = match section(src, key, 0x5b, 0x5d) {
        Ok(arr) => arr,
        Err(e) => {
            return Err(e);
        },
    };
    match parse_entries(arr) {
        Some(v) => Ok(v),
        None => Err(ReplayError { fault: Fault::InvalidInput, key: slice_to_vec(key) }),
    }
}

} // verus!
