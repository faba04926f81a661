use vstd::prelude::*;

verus! {

/// The line feed that ends every header line.
pub const NEWLINE: u8 = 10;

/// A header line that starts with this byte is a comment.
pub const NUMBERSIGN: u8 = 35;

/// The separator between width and height on the dimension line.
pub const WHITESPACE: u8 = 32;

/// The optional sign in front of a decimal numeral.
pub const PLUS: u8 = 43;

/// The first index at or after `from`, and before `last`, that holds `c`.
pub open spec fn first_index_of(s: Seq<u8>, c: u8, from: int, last: int) -> Option<int>
    decreases last - from,
{
    if from >= last {
        None
    } else if s[from] == c {
        Some(from)
    } else {
        first_index_of(s, c, from + 1, last)
    }
}

pub open spec fn is_digit(c: u8) -> bool {
    48 <= c <= 57
}

/// The number that a string of decimal digits denotes.
pub open spec fn digits_value(s: Seq<u8>) -> int
    decreases s.len(),
{
    if s.len() == 0 {
        0
    } else {
        digits_value(s.drop_last()) * 10 + (s.last() - 48)
    }
}

/// The digits of a numeral: what follows an optional leading `+`.
pub open spec fn numeral_digits(s: Seq<u8>) -> Seq<u8> {
    if s.len() > 0 && s[0] == PLUS {
        s.drop_first()
    } else {
        s
    }
}

/// The value of a text as an unsigned machine-sized integer: an optional `+`, then
/// one or more decimal digits, nothing else, and a value that fits in `usize`.
pub open spec fn decimal_value(s: Seq<u8>) -> Option<int> {
    let d = numeral_digits(s);
    if d.len() > 0 && (forall|i: int| 0 <= i < d.len() ==> is_digit(#[trigger] d[i]))
        && digits_value(d) <= usize::MAX {
        Some(digits_value(d))
    } else {
        None
    }
}

proof fn lemma_digits_value_prefix(s: Seq<u8>, k: int)
    requires
        0 <= k <= s.len(),
        forall|i: int| 0 <= i < s.len() ==> is_digit(#[trigger] s[i]),
    ensures
        0 <= digits_value(s.subrange(0, k)) <= digits_value(s),
    decreases s.len(),
{
    if s.len() > 0 {
        let t = s.drop_last();
        assert forall|i: int| 0 <= i < t.len() implies is_digit(#[trigger] t[i]) by {
            assert(t[i] == s[i]);
        }
        if k == s.len() {
            assert(s.subrange(0, k) =~= s);
            lemma_digits_value_prefix(t, 0);
            assert(t.subrange(0, 0) =~= Seq::<u8>::empty());
        } else {
            lemma_digits_value_prefix(t, k);
            assert(t.subrange(0, k) =~= s.subrange(0, k));
        }
    } else {
        assert(s.subrange(0, k) =~= s);
    }
}

/// Reads `s[from..last]` as a decimal numeral, as `str::parse::<usize>` reads it.
pub fn parse_decimal(s: &[u8], from: usize, last: usize) -> (r: Option<usize>)
    requires
        from <= last <= s@.len(),
    ensures
        decimal_value(s@.subrange(from as int, last as int)) == match r {
            Some(v) => Some(v as int),
            None => None,
        },
{
    let ghost whole = s@.subrange(from as int, last as int);
    let mut i: usize = from;
    if i < last && s[i] == PLUS {
        i = i + 1;
    }
    let ghost d = s@.subrange(i as int, last as int);
    assert(numeral_digits(whole) =~= d);
    if i == last {
        return None;
    }
    let digits_from: usize = i;
    let mut value: usize = 0;
    while i < last
        invariant
            from <= digits_from <= i <= last <= s@.len(),
            digits_from < last,
            d == s@.subrange(digits_from as int, last as int),
            numeral_digits(whole) == d,
            whole == s@.subrange(from as int, last as int),
            forall|j: int| 0 <= j < i - digits_from ==> is_digit(#[trigger] d[j]),
            value == digits_value(d.subrange(0, i - digits_from)),
        decreases last - i,
    {
        let c = s[i];
        if c < 48 || c > 57 {
            proof {
                let k = i - digits_from;
                assert(!is_digit(d[k]));
                assert(!(forall|j: int| 0 <= j < d.len() ==> is_digit(#[trigger] d[j])));
                assert(decimal_value(whole) is None);
            }
            return None;
        }
        let dv = (c - 48) as usize;
        let ghost prefix = d.subrange(0, i - digits_from);
        let ghost next = d.subrange(0, i + 1 - digits_from);
        assert(next.drop_last() =~= prefix);
        assert(next.last() == c);
        assert(digits_value(next) == value * 10 + dv);
        if value > (usize::MAX - dv) / 10 {
            proof {
                assert(value * 10 + dv > usize::MAX) by (nonlinear_arith)
                    requires
                        value > (usize::MAX - dv) / 10,
                        dv <= 9,
                ;
                if forall|j: int| 0 <= j < d.len() ==> is_digit(#[trigger] d[j]) {
                    lemma_digits_value_prefix(d, i + 1 - digits_from);
                }
                assert(decimal_value(whole) is None);
            }
            return None;
        }
        value = value * 10 + dv;
        i = i + 1;
    }
    assert(d.subrange(0, i - digits_from) =~= d);
    Some(value)
}

/// Why a header could not be read, as a value that contracts speak of.
pub enum HeaderFault {
    UnknownMagic(Seq<char>),
    NoNewline,
    LineOutOfRange,
    BadDimensions,
    BadDepth,
}

/// Why a header could not be read.
#[derive(Debug, PartialEq, Eq)]
pub enum HeaderError {
    /// The first token is not `P5`; holds that token, one character per byte.
    UnknownMagic(String),
    /// No line feed ends the line on which a token would start.
    NoNewline,
    /// Comment lines run up to the end of the scanned window.
    LineOutOfRange,
    /// The dimension line is not two numerals separated by a space.
    BadDimensions,
    /// The depth line is not a numeral.
    BadDepth,
}

impl View for HeaderError {
    type V = HeaderFault;

    open spec fn view(&self) -> HeaderFault {
        match self {
            HeaderError::UnknownMagic(s) => HeaderFault::UnknownMagic(s@),
            HeaderError::NoNewline => HeaderFault::NoNewline,
            HeaderError::LineOutOfRange => HeaderFault::LineOutOfRange,
            HeaderError::BadDimensions => HeaderFault::BadDimensions,
            HeaderError::BadDepth => HeaderFault::BadDepth,
        }
    }
}

/// Bytes read as characters, one per byte.
pub open spec fn latin1(b: Seq<u8>) -> Seq<char> {
    b.map_values(|x: u8| x as char)
}

/// The token found by scanning `b[..last]` from position `j`, where the line being
/// read began at `start`: the first whole line, ended by a line feed, whose first
/// byte is not `#`, as the range `(start, end)` with `end` at its line feed.
pub open spec fn scan_token(b: Seq<u8>, last: int, start: int, j: int) -> Result<(int, int), HeaderFault>
    decreases last - j,
{
    if j >= last {
        Err(HeaderFault::NoNewline)
    } else if b[j] == NEWLINE {
        if b[start] != NUMBERSIGN {
            Ok((start, j))
        } else if j + 1 >= last {
            Err(HeaderFault::LineOutOfRange)
        } else {
            scan_token(b, last, j + 1, j + 1)
        }
    } else {
        scan_token(b, last, start, j + 1)
    }
}

/// The first line of `b[first..last]` that is not a comment.
pub open spec fn next_token(b: Seq<u8>, first: int, last: int) -> Result<(int, int), HeaderFault> {
    scan_token(b, last, first, first)
}

/// Width and height from a dimension line: two numerals around its first space.
pub open spec fn dimensions(line: Seq<u8>) -> Option<(int, int)> {
    match first_index_of(line, WHITESPACE, 0, line.len() as int) {
        None => None,
        Some(p) => match (
            decimal_value(line.subrange(0, p)),
            decimal_value(line.subrange(p + 1, line.len() as int)),
        ) {
            (Some(w), Some(h)) => Some((w, h)),
            _ => None,
        },
    }
}

pub open spec fn is_magic(t: Seq<u8>) -> bool {
    t == seq![80u8, 53u8]
}

/// The header of a buffer: `(data_start, depth, width, height)`, from the magic
/// line, the dimension line and the depth line, each the next non-comment line.
pub open spec fn pgm_header(b: Seq<u8>) -> Result<(int, int, int, int), HeaderFault> {
    let n = b.len() as int;
    match next_token(b, 0, n) {
        Err(f) => Err(f),
        Ok((x1, y1)) => if !is_magic(b.subrange(x1, y1)) {
            Err(HeaderFault::UnknownMagic(latin1(b.subrange(x1, y1))))
        } else {
            match next_token(b, y1 + 1, n) {
                Err(f) => Err(f),
                Ok((x2, y2)) => match next_token(b, y2 + 1, n) {
                    Err(f) => Err(f),
                    Ok((x3, y3)) => match decimal_value(b.subrange(x3, y3)) {
                        None => Err(HeaderFault::BadDepth),
                        Some(depth) => match dimensions(b.subrange(x2, y2)) {
                            None => Err(HeaderFault::BadDimensions),
                            Some((w, h)) => Ok((y3 + 1, depth, w, h)),
                        },
                    },
                },
            }
        },
    }
}

/// The first position of `c` in `s[from..last]`.
pub fn find_byte(s: &[u8], c: u8, from: usize, last: usize) -> (r: Option<usize>)
    requires
        from <= last <= s@.len(),
    ensures
        first_index_of(s@, c, from as int, last as int) == match r {
            Some(i) => Some(i as int),
            None => None,
        },
        r matches Some(i) ==> from <= i < last && s@[i as int] == c,
{
    let mut i: usize = from;
    while i < last
        invariant
            from <= i <= last <= s@.len(),
            first_index_of(s@, c, from as int, last as int) == first_index_of(
                s@,
                c,
                i as int,
                last as int,
            ),
        decreases last - i,
    {
        if s[i] == c {
            return Some(i);
        }
        i = i + 1;
    }
    None
}

proof fn lemma_scan_to_newline(b: Seq<u8>, last: int, start: int, j: int)
    requires
        0 <= j <= last <= b.len(),
    ensures
        match first_index_of(b, NEWLINE, j, last) {
            None => scan_token(b, last, start, j) == Err::<(int, int), HeaderFault>(
                HeaderFault::NoNewline,
            ),
            Some(e) => scan_token(b, last, start, j) == scan_token(b, last, start, e),
        },
    decreases last - j,
{
    if j < last && b[j] != NEWLINE {
        lemma_scan_to_newline(b, last, start, j + 1);
    }
}

/// Relies on `String::push`: appends the character at the end.
#[verifier::external_body]
fn push_char(s: &mut String, c: char)
    ensures
        final(s)@ == old(s)@.push(c),
{
    s.push(c)
}

/// The bytes as a string of as many characters, each byte read as one character.
pub fn u8_slice_to_string(bytes: &[u8]) -> (r: String)
    ensures
        r@ == latin1(bytes@),
{
    let mut r = String::new();
    let mut i: usize = 0;
    while i < bytes.len()
        invariant
            i <= bytes@.len(),
            r@ == latin1(bytes@.subrange(0, i as int)),
        decreases bytes@.len() - i,
    {
        push_char(&mut r, bytes[i] as char);
        i = i + 1;
        assert(latin1(bytes@.subrange(0, i as int)) =~= latin1(bytes@.subrange(0, i - 1)).push(
            bytes@[i - 1] as char,
        ));
    }
    assert(bytes@.subrange(0, i as int) =~= bytes@);
    r
}

/// The next non-comment line of `bytes[first..last]`, as the range from its first
/// byte to its line feed.
pub fn get_next_noncomment_line(bytes: &[u8], first: usize, last: usize) -> (r: Result<
    (usize, usize),
    HeaderError,
>)
    requires
        first <= last <= bytes@.len(),
    ensures
        next_token(bytes@, first as int, last as int) == match r {
            Ok((a, e)) => Ok((a as int, e as int)),
            Err(g) => Err(g@),
        },
        r matches Ok((a, e)) ==> first <= a <= e < last,
{
    let mut start: usize = first;
    loop
        invariant
            first <= start <= last <= bytes@.len(),
            next_token(bytes@, first as int, last as int) == scan_token(
                bytes@,
                last as int,
                start as int,
                start as int,
            ),
        decreases last - start,
    {
        proof {
            lemma_scan_to_newline(bytes@, last as int, start as int, start as int);
        }
        match find_byte(bytes, NEWLINE, start, last) {
            None => {
                return Err(HeaderError::NoNewline);
            },
            Some(end) => {
                if bytes[start] != NUMBERSIGN {
                    return Ok((start, end));
                }
                if end + 1 >= last {
                    return Err(HeaderError::LineOutOfRange);
                }
                start = end + 1;
            },
        }
    }
}

/// Width and height from a dimension line.
pub fn parse_dimension(dimension: &[u8]) -> (r: Result<(usize, usize), HeaderError>)
    ensures
        dimensions(dimension@) == match r {
            Ok((w, h)) => Some((w as int, h as int)),
            Err(_) => None,
        },
        r matches Err(g) ==> g == HeaderError::BadDimensions,
{
    let split_pos = match find_byte(dimension, WHITESPACE, 0, dimension.len()) {
        Some(x) => x,
        None => return Err(HeaderError::BadDimensions),
    };
    let width = match parse_decimal(dimension, 0, split_pos) {
        Some(x) => x,
        None => return Err(HeaderError::BadDimensions),
    };
    let height = match parse_decimal(dimension, split_pos + 1, dimension.len()) {
        Some(x) => x,
        None => return Err(HeaderError::BadDimensions),
    };
    Ok((width, height))
}

/// Reads the header: `(data_start, depth, width, height)`.
pub fn parse_pgm(bytes: &[u8]) -> (r: Result<(usize, usize, usize, usize), HeaderError>)
    ensures
        pgm_header(bytes@) == match r {
            Ok((s, d, w, h)) => Ok((s as int, d as int, w as int, h as int)),
            Err(g) => Err(g@),
        },
        r matches Ok((s, d, w, h)) ==> s <= bytes@.len(),
{
    let n = bytes.len();
    let (x, y) = match get_next_noncomment_line(bytes, 0, n) {
        Ok(t) => t,
        Err(e) => return Err(e),
    };
    if !(y - x == 2 && bytes[x] == 80 && bytes[x + 1] == 53) {
        proof {
            if is_magic(bytes@.subrange(x as int, y as int)) {
                assert(bytes@.subrange(x as int, y as int)[0] == bytes@[x as int]);
            }
        }
        return Err(HeaderError::UnknownMagic(u8_slice_to_string(&bytes[x..y])));
    }
    assert(bytes@.subrange(x as int, y as int) =~= seq![80u8, 53u8]);
    let (x2, y2) = match get_next_noncomment_line(bytes, y + 1, n) {
        Ok(t) => t,
        Err(e) => return Err(e),
    };
    let (x3, y3) = match get_next_noncomment_line(bytes, y2 + 1, n) {
        Ok(t) => t,
        Err(e) => return Err(e),
    };
    let depth = match parse_decimal(bytes, x3, y3) {
        Some(v) => v,
        None => return Err(HeaderError::BadDepth),
    };
    let (width, height) = match parse_dimension(&bytes[x2..y2]) {
        Ok(t) => t,
        Err(e) => return Err(e),
    };
    Ok((y3 + 1, depth, width, height))
}

/// A token found from `start` lies at or after it and ends before `last`.
pub proof fn lemma_scan_bounds(b: Seq<u8>, last: int, start: int, j: int)
    requires
        start <= j,
    ensures
        scan_token(b, last, start, j) matches Ok((a, e)) ==> start <= a <= e < last,
    decreases last - j,
{
    if j < last {
        if b[j] == NEWLINE {
            if b[start] == NUMBERSIGN && j + 1 < last {
                lemma_scan_bounds(b, last, j + 1, j + 1);
            }
        } else {
            lemma_scan_bounds(b, last, start, j + 1);
        }
    }
}

/// Scanning inside a leading comment line goes on at the line after it.
proof fn lemma_scan_comment(b: Seq<u8>, c: int, j: int)
    requires
        0 <= j < c < b.len(),
        b[0] == NUMBERSIGN,
        b[c - 1] == NEWLINE,
        forall|i: int| 0 <= i < c - 1 ==> b[i] != NEWLINE,
    ensures
        scan_token(b, b.len() as int, 0, j) == scan_token(b, b.len() as int, c, c),
    decreases c - j,
{
    if j < c - 1 {
        lemma_scan_comment(b, c, j + 1);
    }
}

/// Scanning behind a prefix of length `c` finds what scanning without it finds,
/// `c` further on.
proof fn lemma_scan_shift(pre: Seq<u8>, rest: Seq<u8>, s: int, j: int)
    requires
        0 <= s <= j,
    ensures
        scan_token(pre + rest, (pre + rest).len() as int, pre.len() + s, pre.len() + j) == match scan_token(
            rest,
            rest.len() as int,
            s,
            j,
        ) {
            Ok((a, e)) => Ok((a + pre.len(), e + pre.len())),
            Err(f) => Err(f),
        },
    decreases rest.len() - j,
{
    let b = pre + rest;
    let c = pre.len() as int;
    if j < rest.len() {
        assert(b[c + j] == rest[j]);
        assert(b[c + s] == rest[s]);
        if rest[j] == NEWLINE {
            if rest[s] == NUMBERSIGN && j + 1 < rest.len() {
                lemma_scan_shift(pre, rest, j + 1, j + 1);
            }
        } else {
            lemma_scan_shift(pre, rest, s, j + 1);
        }
    }
}

/// A whole comment line in front of a buffer changes nothing in its header but
/// where the pixel data starts, which moves by the comment's length. (With
/// nothing after the comment, the scan stops at the comment itself.)
pub proof fn lemma_comment_line_skipped(comment: Seq<u8>, rest: Seq<u8>)
    requires
        is_comment_line(comment),
        rest.len() > 0,
    ensures
        pgm_header(comment + rest) == match pgm_header(rest) {
            Ok((s, d, w, h)) => Ok((s + comment.len(), d, w, h)),
            Err(f) => Err::<(int, int, int, int), HeaderFault>(f),
        },
{
    let b = comment + rest;
    let c = comment.len() as int;
    let n = b.len() as int;
    let m = rest.len() as int;
    assert forall|i: int| 0 <= i < c - 1 implies b[i] != NEWLINE by {
        assert(b[i] == comment[i]);
    }
    assert(b[c - 1] == comment[c - 1]);
    lemma_scan_comment(b, c, 0);
    lemma_scan_shift(comment, rest, 0, 0);
    lemma_scan_bounds(rest, m, 0, 0);
    match next_token(rest, 0, m) {
        Err(f) => {},
        Ok((x1, y1)) => {
            assert(b.subrange(x1 + c, y1 + c) =~= rest.subrange(x1, y1));
            lemma_scan_shift(comment, rest, y1 + 1, y1 + 1);
            lemma_scan_bounds(rest, m, y1 + 1, y1 + 1);
            match next_token(rest, y1 + 1, m) {
                Err(f) => {},
                Ok((x2, y2)) => {
                    assert(b.subrange(x2 + c, y2 + c) =~= rest.subrange(x2, y2));
                    lemma_scan_shift(comment, rest, y2 + 1, y2 + 1);
                    lemma_scan_bounds(rest, m, y2 + 1, y2 + 1);
                    match next_token(rest, y2 + 1, m) {
                        Err(f) => {},
                        Ok((x3, y3)) => {
                            assert(b.subrange(x3 + c, y3 + c) =~= rest.subrange(x3, y3));
                        },
                    }
                },
            }
        },
    }
}

/// Whether `line` is one whole comment line: a `#`, then anything but a line
/// feed, then a line feed.
pub open spec fn is_comment_line(line: Seq<u8>) -> bool {
    &&& line.len() >= 1
    &&& line[0] == NUMBERSIGN
    &&& line.last() == NEWLINE
    &&& forall|i: int| 0 <= i < line.len() - 1 ==> line[i] != NEWLINE
}

/// Any number of whole comment lines in front of a buffer change nothing in its
/// header but where the pixel data starts, which moves by their total length.
pub proof fn lemma_comment_lines_skipped(lines: Seq<Seq<u8>>, rest: Seq<u8>)
    requires
        forall|k: int| 0 <= k < lines.len() ==> is_comment_line(#[trigger] lines[k]),
        rest.len() > 0,
    ensures
        pgm_header(lines.flatten() + rest) == match pgm_header(rest) {
            Ok((s, d, w, h)) => Ok((s + lines.flatten().len(), d, w, h)),
            Err(f) => Err::<(int, int, int, int), HeaderFault>(f),
        },
    decreases lines.len(),
{
    if lines.len() == 0 {
        assert(lines.flatten() + rest =~= rest);
    } else {
        let tail = lines.drop_first();
        assert forall|k: int| 0 <= k < tail.len() implies is_comment_line(#[trigger] tail[k]) by {
            assert(tail[k] == lines[k + 1]);
        }
        lemma_comment_lines_skipped(tail, rest);
        assert(lines.flatten() + rest =~= lines[0] + (tail.flatten() + rest));
        lemma_comment_line_skipped(lines[0], tail.flatten() + rest);
    }
}

} // verus!
