//! Character-sequence primitives of the circuit text format: whitespace
//! classes, trimming, splitting, tokenising and decimal numbers.
//!
//! Every executable function works on a `Vec<char>` and is specified by a
//! function on `Seq<char>`.

use vstd::prelude::*;

verus! {

/// The code points with the Unicode property `White_Space`.
pub open spec fn is_space(c: char) -> bool {
    let u = c as u32;
    ||| 0x09 <= u <= 0x0D
    ||| u == 0x20
    ||| u == 0x85
    ||| u == 0xA0
    ||| u == 0x1680
    ||| 0x2000 <= u <= 0x200A
    ||| u == 0x2028
    ||| u == 0x2029
    ||| u == 0x202F
    ||| u == 0x205F
    ||| u == 0x3000
}

/// ASCII whitespace: space, tab, line feed, form feed, carriage return.
pub open spec fn is_ascii_space(c: char) -> bool {
    c == ' ' || c == '\t' || c == '\n' || c == '\x0C' || c == '\r'
}

pub fn char_is_space(c: char) -> (b: bool)
    ensures
        b == is_space(c),
{
    let u: u32 = c as u32;
    (0x09 <= u && u <= 0x0D) || u == 0x20 || u == 0x85 || u == 0xA0 || u == 0x1680 || (0x2000 <= u
        && u <= 0x200A) || u == 0x2028 || u == 0x2029 || u == 0x202F || u == 0x205F || u == 0x3000
}

pub fn char_is_ascii_space(c: char) -> (b: bool)
    ensures
        b == is_ascii_space(c),
{
    c == ' ' || c == '\t' || c == '\n' || c == '\x0C' || c == '\r'
}

/// The characters of `s`, in order.
pub fn to_chars(s: &str) -> (v: Vec<char>)
    ensures
        v@ == s@,
{
    let mut v: Vec<char> = Vec::new();
    for c in it: s.chars()
        invariant
            v@ == it.seq().take(it.index()),
    {
        v.push(c);
    }
    v
}


/// A new string with the characters of `v`.
///
/// Calls std's `String::from_iter` on the characters; the contract states that
/// the string holds exactly those characters, in order.
#[verifier::external_body]
pub(crate) fn chars_to_string(v: &Vec<char>) -> (s: String)
    ensures
        s@ == v@,
{
    v.iter().collect()
}

/// The characters of `s` from index `from` up to, not including, `to`.
pub fn slice_chars(s: &Vec<char>, from: usize, to: usize) -> (v: Vec<char>)
    requires
        from <= to <= s.len(),
    ensures
        v@ == s@.subrange(from as int, to as int),
{
    let mut v: Vec<char> = Vec::new();
    let mut i: usize = from;
    while i < to
        invariant
            from <= i <= to <= s.len(),
            v@ == s@.subrange(from as int, i as int),
        decreases to - i,
    {
        v.push(s[i]);
        i += 1;
    }
    v
}

/// The character sequences that the vectors of `v` hold.
pub open spec fn seqs_of(v: Seq<Vec<char>>) -> Seq<Seq<char>> {
    Seq::new(v.len(), |i: int| v[i]@)
}

// ---------------------------------------------------------------------------
// Trimming
// ---------------------------------------------------------------------------

/// `s` without its trailing whitespace.
pub open spec fn trim_end(s: Seq<char>) -> Seq<char>
    decreases s.len(),
{
    if s.len() > 0 && is_space(s.last()) {
        trim_end(s.drop_last())
    } else {
        s
    }
}

/// `s` without its leading whitespace.
pub open spec fn trim_start(s: Seq<char>) -> Seq<char>
    decreases s.len(),
{
    if s.len() > 0 && is_space(s.first()) {
        trim_start(s.drop_first())
    } else {
        s
    }
}

/// `s` without leading and trailing whitespace.
pub open spec fn trim(s: Seq<char>) -> Seq<char> {
    trim_start(trim_end(s))
}

pub fn trim_chars(s: &Vec<char>) -> (v: Vec<char>)
    ensures
        v@ == trim(s@),
{
    let mut e: usize = s.len();
    assert(s@.subrange(0, e as int) =~= s@);
    while e > 0 && char_is_space(s[e - 1])
        invariant
            e <= s.len(),
            trim_end(s@) == trim_end(s@.subrange(0, e as int)),
        decreases e,
    {
        proof {
            let t = s@.subrange(0, e as int);
            assert(t.drop_last() =~= s@.subrange(0, e - 1));
        }
        e -= 1;
    }
    let mut b: usize = 0;
    while b < e && char_is_space(s[b])
        invariant
            b <= e <= s.len(),
            trim(s@) == trim_start(s@.subrange(b as int, e as int)),
        decreases e - b,
    {
        proof {
            let t = s@.subrange(b as int, e as int);
            assert(t.drop_first() =~= s@.subrange(b + 1, e as int));
        }
        b += 1;
    }
    slice_chars(s, b, e)
}

// ---------------------------------------------------------------------------
// Splitting on one character
// ---------------------------------------------------------------------------

/// The pieces of `s` between occurrences of `sep`. There is always at least
/// one piece; `n` separators give `n + 1` pieces, some of which may be empty.
pub open spec fn split(s: Seq<char>, sep: char) -> Seq<Seq<char>>
    decreases s.len(),
{
    if s.len() == 0 {
        seq![Seq::<char>::empty()]
    } else {
        let before = split(s.drop_last(), sep);
        if s.last() == sep {
            before.push(Seq::<char>::empty())
        } else {
            before.drop_last().push(before.last().push(s.last()))
        }
    }
}

pub fn split_chars(s: &Vec<char>, sep: char) -> (pieces: Vec<Vec<char>>)
    ensures
        seqs_of(pieces@) == split(s@, sep),
        pieces.len() >= 1,
{
    let mut done: Vec<Vec<char>> = Vec::new();
    let mut cur: Vec<char> = Vec::new();
    let mut i: usize = 0;
    while i < s.len()
        invariant
            i <= s.len(),
            seqs_of(done@).push(cur@) == split(s@.subrange(0, i as int), sep),
        decreases s.len() - i,
    {
        let c = s[i];
        proof {
            let t = s@.subrange(0, i + 1);
            assert(t.drop_last() =~= s@.subrange(0, i as int));
            assert(t.last() == c);
        }
        if c == sep {
            let ghost before = seqs_of(done@);
            let ghost piece = cur@;
            done.push(cur);
            assert(seqs_of(done@) =~= before.push(piece));
            cur = Vec::new();
        } else {
            let ghost before = cur@;
            cur.push(c);
            assert(seqs_of(done@).push(before).drop_last() =~= seqs_of(done@));
        }
        i += 1;
    }
    assert(s@.subrange(0, i as int) =~= s@);
    let ghost before = seqs_of(done@);
    let ghost piece = cur@;
    done.push(cur);
    assert(seqs_of(done@) =~= before.push(piece));
    done
}

// ---------------------------------------------------------------------------
// Tokens separated by ASCII whitespace
// ---------------------------------------------------------------------------

/// The state of a left-to-right token scan: the tokens that are complete, and
/// the characters of the token being read (empty between tokens).
pub struct TokenScan {
    pub done: Seq<Seq<char>>,
    pub cur: Seq<char>,
}

pub open spec fn token_scan(s: Seq<char>) -> TokenScan
    decreases s.len(),
{
    if s.len() == 0 {
        TokenScan { done: Seq::empty(), cur: Seq::empty() }
    } else {
        let st = token_scan(s.drop_last());
        if is_ascii_space(s.last()) {
            if st.cur.len() > 0 {
                TokenScan { done: st.done.push(st.cur), cur: Seq::empty() }
            } else {
                st
            }
        } else {
            TokenScan { done: st.done, cur: st.cur.push(s.last()) }
        }
    }
}

/// The maximal runs of characters of `s` that hold no ASCII whitespace.
pub open spec fn tokens(s: Seq<char>) -> Seq<Seq<char>> {
    let st = token_scan(s);
    if st.cur.len() > 0 {
        st.done.push(st.cur)
    } else {
        st.done
    }
}

pub fn split_tokens(s: &Vec<char>) -> (toks: Vec<Vec<char>>)
    ensures
        seqs_of(toks@) == tokens(s@),
{
    let mut done: Vec<Vec<char>> = Vec::new();
    let mut cur: Vec<char> = Vec::new();
    let mut i: usize = 0;
    while i < s.len()
        invariant
            i <= s.len(),
            token_scan(s@.subrange(0, i as int)).done == seqs_of(done@),
            token_scan(s@.subrange(0, i as int)).cur == cur@,
        decreases s.len() - i,
    {
        let c = s[i];
        proof {
            let t = s@.subrange(0, i + 1);
            assert(t.drop_last() =~= s@.subrange(0, i as int));
            assert(t.last() == c);
        }
        if char_is_ascii_space(c) {
            if cur.len() > 0 {
                let ghost before = seqs_of(done@);
                let ghost piece = cur@;
                done.push(cur);
                assert(seqs_of(done@) =~= before.push(piece));
                cur = Vec::new();
            }
        } else {
            cur.push(c);
        }
        i += 1;
    }
    assert(s@.subrange(0, i as int) =~= s@);
    if cur.len() > 0 {
        let ghost before = seqs_of(done@);
        let ghost piece = cur@;
        done.push(cur);
        assert(seqs_of(done@) =~= before.push(piece));
    }
    done
}

// ---------------------------------------------------------------------------
// Joining lines and splicing continued lines
// ---------------------------------------------------------------------------

/// The lines of `lines` with a line feed between each two.
pub open spec fn join_lines(lines: Seq<Seq<char>>) -> Seq<char>
    decreases lines.len(),
{
    if lines.len() == 0 {
        Seq::empty()
    } else if lines.len() == 1 {
        lines[0]
    } else {
        join_lines(lines.drop_last()).push('\n') + lines.last()
    }
}

pub fn join_line_chars(lines: &Vec<Vec<char>>) -> (text: Vec<char>)
    ensures
        text@ == join_lines(seqs_of(lines@)),
{
    let mut text: Vec<char> = Vec::new();
    let mut i: usize = 0;
    while i < lines.len()
        invariant
            i <= lines.len(),
            text@ == join_lines(seqs_of(lines@).subrange(0, i as int)),
        decreases lines.len() - i,
    {
        let ghost head = seqs_of(lines@).subrange(0, i as int);
        let ghost next = seqs_of(lines@).subrange(0, i + 1);
        proof {
            assert(next.drop_last() =~= head);
            assert(next.last() == lines[i as int]@);
        }
        if i > 0 {
            text.push('\n');
        }
        let line = &lines[i];
        let ghost base = text@;
        let mut j: usize = 0;
        while j < line.len()
            invariant
                j <= line.len(),
                text@ == base + line@.subrange(0, j as int),
            decreases line.len() - j,
        {
            text.push(line[j]);
            j += 1;
        }
        assert(line@.subrange(0, j as int) =~= line@);
        assert(text@ =~= join_lines(next));
        i += 1;
    }
    assert(seqs_of(lines@).subrange(0, i as int) =~= seqs_of(lines@));
    text
}

/// `s` with every backslash that is directly followed by a line feed replaced,
/// together with the line feed, by one space.
pub open spec fn splice(s: Seq<char>) -> Seq<char>
    decreases s.len(),
{
    if s.len() == 0 {
        s
    } else {
        let before = s.drop_last();
        if s.last() == '\n' && before.len() > 0 && before.last() == '\\' {
            splice(before).drop_last().push(' ')
        } else {
            splice(before).push(s.last())
        }
    }
}

/// A spliced text ends as the text does, unless a splice ends it.
proof fn lemma_splice_last(s: Seq<char>)
    requires
        s.len() > 0,
        s.last() != '\n',
    ensures
        splice(s).len() > 0,
        splice(s).last() == s.last(),
{
}

pub fn splice_chars(s: &Vec<char>) -> (v: Vec<char>)
    ensures
        v@ == splice(s@),
{
    let mut v: Vec<char> = Vec::new();
    let mut i: usize = 0;
    while i < s.len()
        invariant
            i <= s.len(),
            v@ == splice(s@.subrange(0, i as int)),
        decreases s.len() - i,
    {
        let c = s[i];
        proof {
            let t = s@.subrange(0, i + 1);
            assert(t.drop_last() =~= s@.subrange(0, i as int));
            assert(t.last() == c);
            if i > 0 && s[i - 1] == '\\' {
                lemma_splice_last(s@.subrange(0, i as int));
            }
        }
        if c == '\n' && i > 0 && s[i - 1] == '\\' {
            v.pop();
            v.push(' ');
        } else {
            v.push(c);
        }
        i += 1;
    }
    assert(s@.subrange(0, i as int) =~= s@);
    v
}

// ---------------------------------------------------------------------------
// Prefixes
// ---------------------------------------------------------------------------

/// Whether `s` begins with the characters of `word`.
pub fn starts_with(s: &Vec<char>, word: &str) -> (b: bool)
    ensures
        b == word@.is_prefix_of(s@),
{
    let n = word.unicode_len();
    if s.len() < n {
        return false;
    }
    let mut i: usize = 0;
    while i < n
        invariant
            i <= n <= s.len(),
            n == word@.len(),
            forall|j: int| 0 <= j < i ==> s@[j] == word@[j],
        decreases n - i,
    {
        if s[i] != word.get_char(i) {
            assert(s@.subrange(0, n as int)[i as int] != word@[i as int]);
            return false;
        }
        i += 1;
    }
    assert(word@ =~= s@.subrange(0, n as int));
    true
}

// ---------------------------------------------------------------------------
// Decimal numbers
// ---------------------------------------------------------------------------

pub open spec fn is_digit(c: char) -> bool {
    '0' <= c <= '9'
}

pub open spec fn all_digits(s: Seq<char>) -> bool {
    forall|i: int| 0 <= i < s.len() ==> is_digit(#[trigger] s[i])
}

/// The number that the decimal digits `s` write; 0 for no digits.
pub open spec fn decimal_value(s: Seq<char>) -> int
    decreases s.len(),
{
    if s.len() == 0 {
        0
    } else {
        10 * decimal_value(s.drop_last()) + (s.last() as int - '0' as int)
    }
}

/// The digits of a signed decimal number: all of it but a leading `+` or `-`.
pub open spec fn number_digits(s: Seq<char>) -> Seq<char> {
    if s.len() > 0 && (s[0] == '-' || s[0] == '+') {
        s.drop_first()
    } else {
        s
    }
}

/// The value of a signed decimal number with at least one digit.
pub open spec fn number_value(s: Seq<char>) -> int {
    if s.len() > 0 && s[0] == '-' {
        -decimal_value(number_digits(s))
    } else {
        decimal_value(number_digits(s))
    }
}

/// The `i8` that `s` writes: an optional sign, then one or more decimal
/// digits, with a value from -128 to 127. `None` for anything else.
pub open spec fn parse_i8_spec(s: Seq<char>) -> Option<i8> {
    let digits = number_digits(s);
    if digits.len() == 0 || !all_digits(digits) {
        None
    } else if -128 <= number_value(s) <= 127 {
        Some(number_value(s) as i8)
    } else {
        None
    }
}

proof fn lemma_decimal_value_grows(s: Seq<char>)
    requires
        s.len() > 0,
        all_digits(s),
    ensures
        decimal_value(s) >= decimal_value(s.drop_last()) >= 0,
    decreases s.len(),
{
    let t = s.drop_last();
    if t.len() > 0 {
        assert forall|i: int| 0 <= i < t.len() implies is_digit(#[trigger] t[i]) by {
            assert(t[i] == s[i]);
        }
        lemma_decimal_value_grows(t);
    }
    assert(is_digit(s[s.len() - 1]));
}

pub fn parse_i8(s: &Vec<char>) -> (r: Option<i8>)
    ensures
        r == parse_i8_spec(s@),
{
    let n = s.len();
    let negative = n > 0 && s[0] == '-';
    let start: usize = if n > 0 && (s[0] == '-' || s[0] == '+') {
        1
    } else {
        0
    };
    let ghost digits = number_digits(s@);
    assert(digits =~= s@.subrange(start as int, n as int));
    if start == n {
        return None;
    }
    // `acc` is the value of the digits read, as long as it is at most 128.
    let mut acc: i32 = 0;
    let mut large = false;
    let mut i: usize = start;
    while i < n
        invariant
            start <= i <= n == s.len(),
            digits == number_digits(s@),
            digits == s@.subrange(start as int, n as int),
            negative == (n > 0 && s@[0] == '-'),
            all_digits(digits.subrange(0, i - start)),
            !large ==> 0 <= acc <= 128 && acc == decimal_value(digits.subrange(0, i - start)),
            large ==> decimal_value(digits.subrange(0, i - start)) > 128,
        decreases n - i,
    {
        let c = s[i];
        let ghost head = digits.subrange(0, i - start);
        let ghost next = digits.subrange(0, i - start + 1);
        proof {
            assert(next.drop_last() =~= head);
            assert(next.last() == c);
        }
        if !(c >= '0' && c <= '9') {
            assert(!is_digit(digits[i - start]));
            return None;
        }
        proof {
            assert forall|k: int| 0 <= k < next.len() implies is_digit(#[trigger] next[k]) by {
                if k < head.len() {
                    assert(next[k] == head[k]);
                }
            }
            lemma_decimal_value_grows(next);
        }
        if !large {
            let d: i32 = (c as u32 - '0' as u32) as i32;
            acc = acc * 10 + d;
            if acc > 128 {
                large = true;
            }
        }
        i += 1;
    }
    assert(digits.subrange(0, i - start) =~= digits);
    if large {
        None
    } else if negative {
        Some((-acc) as i8)
    } else if acc <= 127 {
        Some(acc as i8)
    } else {
        None
    }
}

} // verus!
