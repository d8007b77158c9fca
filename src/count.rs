use vstd::prelude::*;

verus! {

/// Characters with the Unicode `White_Space` property.
pub open spec fn is_white_space(c: char) -> bool {
    ||| ('\u{9}' <= c && c <= '\u{d}')
    ||| c == ' '
    ||| c == '\u{85}'
    ||| c == '\u{a0}'
    ||| c == '\u{1680}'
    ||| ('\u{2000}' <= c && c <= '\u{200a}')
    ||| c == '\u{2028}'
    ||| c == '\u{2029}'
    ||| c == '\u{202f}'
    ||| c == '\u{205f}'
    ||| c == '\u{3000}'
}

/// `s` without its leading white space.
pub open spec fn trim_start(s: Seq<char>) -> Seq<char>
    decreases s.len(),
{
    if s.len() > 0 && is_white_space(s[0]) {
        trim_start(s.drop_first())
    } else {
        s
    }
}

/// `s` without its trailing white space.
pub open spec fn trim_end(s: Seq<char>) -> Seq<char>
    decreases s.len(),
{
    if s.len() > 0 && is_white_space(s.last()) {
        trim_end(s.drop_last())
    } else {
        s
    }
}

/// `s` without white space at either end.
pub open spec fn trimmed(s: Seq<char>) -> Seq<char> {
    trim_end(trim_start(s))
}

pub open spec fn is_decimal_digit(c: char) -> bool {
    '0' <= c && c <= '9'
}

/// The number that a string of decimal digits denotes.
pub open spec fn decimal_value(d: Seq<char>) -> nat
    decreases d.len(),
{
    if d.len() == 0 {
        0
    } else {
        10 * decimal_value(d.drop_last()) + (d.last() as nat - '0' as nat) as nat
    }
}

/// The digits of a trimmed count: one leading `+` sign is allowed.
pub open spec fn unsigned_digits(t: Seq<char>) -> Seq<char> {
    if t.len() > 0 && t[0] == '+' {
        t.drop_first()
    } else {
        t
    }
}

/// `text` is, once trimmed, an optional `+` and one or more decimal digits
/// whose value fits in a `u32`.
pub open spec fn is_count_text(text: Seq<char>) -> bool {
    let d = unsigned_digits(trimmed(text));
    &&& d.len() > 0
    &&& forall|i: int| 0 <= i < d.len() ==> is_decimal_digit(#[trigger] d[i])
    &&& decimal_value(d) <= u32::MAX
}

/// The count that a valid count text denotes.
pub open spec fn count_value(text: Seq<char>) -> nat {
    decimal_value(unsigned_digits(trimmed(text)))
}

proof fn lemma_trim_start_skip(s: Seq<char>, k: int)
    requires
        0 <= k < s.len(),
        is_white_space(s[k]),
    ensures
        trim_start(s.subrange(k, s.len() as int)) == trim_start(s.subrange(k + 1, s.len() as int)),
{
    assert(s.subrange(k, s.len() as int).drop_first() =~= s.subrange(k + 1, s.len() as int));
}

proof fn lemma_trim_end_skip(s: Seq<char>, k: int)
    requires
        0 < k <= s.len(),
        is_white_space(s[k - 1]),
    ensures
        trim_end(s.subrange(0, k)) == trim_end(s.subrange(0, k - 1)),
{
    assert(s.subrange(0, k).drop_last() =~= s.subrange(0, k - 1));
}

/// Where the text without its surrounding white space starts and ends.
fn trim_bounds(text: &str) -> (r: (usize, usize))
    ensures
        r.0 <= r.1 <= text@.len(),
        text@.subrange(r.0 as int, r.1 as int) == trimmed(text@),
{
    let ghost s = text@;
    let len = text.unicode_len();
    let mut start: usize = 0;
    assert(s.subrange(0, len as int) =~= s);
    while start < len && is_white_space_char(text.get_char(start))
        invariant
            start <= len,
            len == s.len(),
            s == text@,
            trim_start(s) == trim_start(s.subrange(start as int, len as int)),
        decreases len - start,
    {
        proof {
            lemma_trim_start_skip(s, start as int);
        }
        start = start + 1;
    }
    let ghost rest = s.subrange(start as int, len as int);
    assert(trim_start(s) == rest) by {
        if rest.len() > 0 {
            assert(rest[0] == s[start as int]);
        }
    }
    let mut end: usize = len;
    assert(rest.subrange(0, rest.len() as int) =~= rest);
    while end > start && is_white_space_char(text.get_char(end - 1))
        invariant
            start <= end <= len,
            len == s.len(),
            s == text@,
            rest == s.subrange(start as int, len as int),
            trim_end(rest) == trim_end(rest.subrange(0, end - start)),
        decreases end - start,
    {
        proof {
            lemma_trim_end_skip(rest, end - start);
        }
        end = end - 1;
    }
    let ghost kept = rest.subrange(0, end - start);
    assert(trim_end(rest) == kept) by {
        if kept.len() > 0 {
            assert(kept.last() == s[end - 1]);
        }
    }
    assert(kept =~= s.subrange(start as int, end as int));
    (start, end)
}

fn is_white_space_char(c: char) -> (r: bool)
    ensures
        r == is_white_space(c),
{
    ('\u{9}' <= c && c <= '\u{d}') || c == ' ' || c == '\u{85}' || c == '\u{a0}' || c
        == '\u{1680}' || ('\u{2000}' <= c && c <= '\u{200a}') || c == '\u{2028}' || c
        == '\u{2029}' || c == '\u{202f}' || c == '\u{205f}' || c == '\u{3000}'
}

proof fn lemma_decimal_value_prefix(d: Seq<char>, k: int)
    requires
        0 <= k <= d.len(),
    ensures
        decimal_value(d.subrange(0, k)) <= decimal_value(d),
    decreases d.len(),
{
    if k < d.len() {
        assert(d.drop_last().subrange(0, k) =~= d.subrange(0, k));
        lemma_decimal_value_prefix(d.drop_last(), k);
    } else {
        assert(d.subrange(0, k) =~= d);
    }
}

/// The one way reading a count can fail: the text does not denote a count
/// that fits in a `u32`. Malformed text and a value out of range are not told
/// apart.
#[derive(Debug, Clone, Copy, PartialEq, Eq, Structural)]
pub struct CountError;

/// The line reported for a text that is not a count.
pub open spec fn count_error_message() -> Seq<char> {
    "Error: Please enter a valid positive number"@
}

impl CountError {
    /// The line to report for this error.
    pub fn message(&self) -> (r: String)
        ensures
            r@ == count_error_message(),
    {
        String::from_str("Error: Please enter a valid positive number")
    }
}

/// Reads a count of terms from a line of text: surrounding white space is
/// ignored, then an optional `+` and decimal digits must follow, with a value
/// that fits in a `u32`.
pub fn parse_count(text: &str) -> (r: Result<u32, CountError>)
    ensures
        r is Ok <==> is_count_text(text@),
        r is Ok ==> r->Ok_0 == count_value(text@),
{
    let ghost s = text@;
    let (start, end) = trim_bounds(text);
    let ghost t = s.subrange(start as int, end as int);
    let mut first: usize = start;
    if first < end && text.get_char(first) == '+' {
        first = first + 1;
    }
    let ghost d = s.subrange(first as int, end as int);
    assert(d =~= unsigned_digits(t));
    if first == end {
        return Err(CountError);
    }
    let mut value: u64 = 0;
    let mut j: usize = first;
    while j < end
        invariant
            first <= j <= end <= s.len(),
            s == text@,
            d == s.subrange(first as int, end as int),
            d == unsigned_digits(trimmed(s)),
            value <= u32::MAX,
            value == decimal_value(d.subrange(0, j - first)),
            forall|k: int| 0 <= k < j - first ==> is_decimal_digit(#[trigger] d[k]),
        decreases end - j,
    {
        let c = text.get_char(j);
        assert(d[j - first] == c);
        if !('0' <= c && c <= '9') {
            assert(!is_decimal_digit(d[j - first]));
            return Err(CountError);
        }
        assert(d.subrange(0, j + 1 - first).drop_last() =~= d.subrange(0, j - first));
        value = value * 10 + (c as u64 - '0' as u64);
        if value > u32::MAX as u64 {
            proof {
                lemma_decimal_value_prefix(d, j + 1 - first);
            }
            return Err(CountError);
        }
        j = j + 1;
    }
    assert(d.subrange(0, j - first) =~= d);
    Ok(value as u32)
}

} // verus!
