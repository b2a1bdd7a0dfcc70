//! Reading the pieces of one line of assembly text: the part before a
//! comment, the tokens between blanks, and signed decimal numbers.

use vstd::prelude::*;
use vstd::string::*;
use crate::text::push_char;

verus! {

/// Whether `c` separates tokens.
pub open spec fn is_blank(c: char) -> bool {
    c == ' ' || c == '\t' || c == '\n' || c == '\r' || c == '\u{b}' || c == '\u{c}'
}

/// Whether a comment starts at position `i` of `s`: two slashes.
pub open spec fn comment_at(s: Seq<char>, i: int) -> bool {
    0 <= i && i + 1 < s.len() && s[i] == '/' && s[i + 1] == '/'
}

/// Where the code of the line `s` ends, looking from position `i` on: at
/// the first comment, or at the end of the line where there is none.
pub open spec fn code_end_from(s: Seq<char>, i: int) -> int
    decreases s.len() - i,
{
    if i < 0 || i >= s.len() {
        s.len() as int
    } else if comment_at(s, i) {
        i
    } else {
        code_end_from(s, i + 1)
    }
}

/// The code of the line `s`: what stands before its first comment.
pub open spec fn code_of(s: Seq<char>) -> Seq<char> {
    s.take(code_end_from(s, 0))
}

/// The lines of `s`: what stands between its line breaks. A text that ends
/// in a line break has an empty last line.
pub open spec fn lines_of_text(s: Seq<char>) -> Seq<Seq<char>>
    decreases s.len(),
{
    if s.len() == 0 {
        seq![Seq::empty()]
    } else {
        let rest = lines_of_text(s.drop_last());
        if s.last() == '\n' {
            rest.push(Seq::empty())
        } else {
            rest.drop_last().push(rest.last().push(s.last()))
        }
    }
}

/// The tokens of `s`: its longest runs of characters that are not blank,
/// in order.
pub open spec fn tokens(s: Seq<char>) -> Seq<Seq<char>>
    decreases s.len(),
{
    if s.len() == 0 {
        Seq::empty()
    } else {
        let rest = tokens(s.drop_last());
        let c = s.last();
        if is_blank(c) {
            rest
        } else if s.len() >= 2 && !is_blank(s[s.len() - 2]) {
            rest.drop_last().push(rest.last().push(c))
        } else {
            rest.push(seq![c])
        }
    }
}

/// The value of a decimal digit, or -1 for any other character.
pub open spec fn digit_value(c: char) -> int {
    if '0' <= c <= '9' {
        c as int - '0' as int
    } else {
        -1
    }
}

/// Whether `s` holds decimal digits only.
pub open spec fn all_digits(s: Seq<char>) -> bool {
    forall|i: int| 0 <= i < s.len() ==> digit_value(#[trigger] s[i]) >= 0
}

/// The number that the decimal digits `s` write.
pub open spec fn digits_value(s: Seq<char>) -> int
    decreases s.len(),
{
    if s.len() == 0 {
        0
    } else {
        10 * digits_value(s.drop_last()) + digit_value(s.last())
    }
}

/// The signed 32-bit number that `s` writes: an optional sign, then one
/// decimal digit or more, the value within range. None for any other text.
pub open spec fn number_of(s: Seq<char>) -> Option<i32> {
    let signed = s.len() > 0 && (s[0] == '-' || s[0] == '+');
    let body = if signed {
        s.skip(1)
    } else {
        s
    };
    let value = if s.len() > 0 && s[0] == '-' {
        -digits_value(body)
    } else {
        digits_value(body)
    };
    if body.len() > 0 && all_digits(body) && i32::MIN <= value <= i32::MAX {
        Some(value as i32)
    } else {
        None
    }
}

/// The characters of `s`.
pub fn chars_of(s: &str) -> (r: Vec<char>)
    ensures
        r@ == s@,
{
    let n = s.unicode_len();
    let mut r: Vec<char> = Vec::new();
    let mut i: usize = 0;
    while i < n
        invariant
            i <= n,
            n == s@.len(),
            r@ == s@.take(i as int),
        decreases n - i,
    {
        r.push(s.get_char(i));
        assert(r@ =~= s@.take(i as int + 1));
        i = i + 1;
    }
    assert(s@.take(n as int) =~= s@);
    r
}

/// Whether `c` separates tokens.
pub fn blank(c: char) -> (r: bool)
    ensures
        r == is_blank(c),
{
    c == ' ' || c == '\t' || c == '\n' || c == '\r' || c == '\u{b}' || c == '\u{c}'
}

/// Where the code of the line `s` ends.
pub fn code_end(s: &Vec<char>) -> (k: usize)
    ensures
        k == code_end_from(s@, 0),
        k <= s@.len(),
{
    let mut i: usize = 0;
    while i < s.len()
        invariant
            i <= s@.len(),
            code_end_from(s@, 0) == code_end_from(s@, i as int),
        decreases s@.len() - i,
    {
        if s[i] == '/' && i + 1 < s.len() && s[i + 1] == '/' {
            return i;
        }
        i = i + 1;
    }
    i
}

/// The lines of `s`.
pub fn split_lines(s: &Vec<char>) -> (r: Vec<Vec<char>>)
    ensures
        r@.len() == lines_of_text(s@).len(),
        forall|i: int| 0 <= i < r@.len() ==> (#[trigger] r@[i])@ == lines_of_text(s@)[i],
{
    let mut r: Vec<Vec<char>> = Vec::new();
    r.push(Vec::new());
    let mut i: usize = 0;
    assert(s@.take(0) =~= Seq::empty());
    assert(r@[0]@ =~= Seq::empty());
    while i < s.len()
        invariant
            i <= s@.len(),
            r@.len() > 0,
            r@.len() == lines_of_text(s@.take(i as int)).len(),
            forall|k: int|
                0 <= k < r@.len() ==> (#[trigger] r@[k])@ == lines_of_text(s@.take(i as int))[k],
        decreases s@.len() - i,
    {
        let c = s[i];
        proof {
            assert(s@.take(i as int + 1).drop_last() =~= s@.take(i as int));
            assert(s@.take(i as int + 1).last() == c);
        }
        if c == '\n' {
            r.push(Vec::new());
            assert(r@[r@.len() - 1]@ =~= Seq::empty());
        } else {
            let mut last = r.pop().unwrap();
            last.push(c);
            r.push(last);
        }
        i = i + 1;
    }
    assert(s@.take(i as int) =~= s@);
    r
}

/// The tokens among the first `end` characters of `s`.
pub fn split_tokens(s: &Vec<char>, end: usize) -> (r: Vec<String>)
    requires
        end <= s@.len(),
    ensures
        r@.len() == tokens(s@.take(end as int)).len(),
        forall|i: int| 0 <= i < r@.len() ==> (#[trigger] r@[i])@ == tokens(s@.take(end as int))[i],
{
    let mut r: Vec<String> = Vec::new();
    let mut i: usize = 0;
    assert(s@.take(0) =~= Seq::empty());
    while i < end
        invariant
            i <= end <= s@.len(),
            r@.len() == tokens(s@.take(i as int)).len(),
            forall|k: int| 0 <= k < r@.len() ==> (#[trigger] r@[k])@ == tokens(s@.take(i as int))[k],
            i > 0 && !is_blank(s@[i - 1]) ==> r@.len() > 0,
        decreases end - i,
    {
        let c = s[i];
        proof {
            assert(s@.take(i as int + 1).drop_last() =~= s@.take(i as int));
            assert(s@.take(i as int + 1).last() == c);
            if i > 0 {
                assert(s@.take(i as int + 1)[i as int - 1] == s@[i as int - 1]);
            }
        }
        if !blank(c) {
            if i > 0 && !blank(s[i - 1]) {
                let mut last = r.pop().unwrap();
                push_char(&mut last, c);
                r.push(last);
            } else {
                let mut word = String::new();
                push_char(&mut word, c);
                assert(word@ =~= seq![c]);
                r.push(word);
            }
        }
        i = i + 1;
    }
    r
}

/// Whether the texts of `a` and `b` are the same.
pub fn same_text(a: &String, b: &str) -> (r: bool)
    ensures
        r == (a@ == b@),
{
    let other = String::from_str(b);
    *a == other
}

/// The value of a decimal digit, or none for any other character.
fn digit_of(c: char) -> (r: Option<u8>)
    ensures
        match r {
            Some(d) => d as int == digit_value(c) && d <= 9,
            None => digit_value(c) == -1,
        },
{
    if '0' <= c && c <= '9' {
        Some((c as u32 - '0' as u32) as u8)
    } else {
        None
    }
}

/// The digits of a number grow it: with one digit more it is no smaller.
pub proof fn lemma_digits_grow(s: Seq<char>)
    requires
        all_digits(s),
    ensures
        digits_value(s) >= 0,
        s.len() > 0 ==> digits_value(s) >= digits_value(s.drop_last()),
    decreases s.len(),
{
    if s.len() > 0 {
        assert(all_digits(s.drop_last())) by {
            assert forall|i: int| 0 <= i < s.drop_last().len() implies digit_value(
                #[trigger] s.drop_last()[i],
            ) >= 0 by {
                assert(s.drop_last()[i] == s[i]);
            }
        }
        lemma_digits_grow(s.drop_last());
        assert(digit_value(s.last()) >= 0);
    }
}

/// A number does not shrink when digits are added at its end.
pub proof fn lemma_digits_monotone(s: Seq<char>, k: int)
    requires
        all_digits(s),
        0 <= k <= s.len(),
    ensures
        digits_value(s) >= digits_value(s.take(k)) >= 0,
    decreases s.len() - k,
{
    assert(all_digits(s.take(k))) by {
        assert forall|i: int| 0 <= i < s.take(k).len() implies digit_value(#[trigger] s.take(k)[i])
            >= 0 by {
            assert(s.take(k)[i] == s[i]);
        }
    }
    lemma_digits_grow(s.take(k));
    if k < s.len() {
        lemma_digits_monotone(s, k + 1);
        assert(all_digits(s.take(k + 1))) by {
            assert forall|i: int| 0 <= i < s.take(k + 1).len() implies digit_value(
                #[trigger] s.take(k + 1)[i],
            ) >= 0 by {
                assert(s.take(k + 1)[i] == s[i]);
            }
        }
        lemma_digits_grow(s.take(k + 1));
        assert(s.take(k + 1).drop_last() =~= s.take(k));
    } else {
        assert(s.take(k) =~= s);
    }
}

/// The signed 32-bit number that `word` writes.
pub fn parse_number(word: &String) -> (r: Option<i32>)
    ensures
        r == number_of(word@),
{
    let s = chars_of(word.as_str());
    let n = s.len();
    if n == 0 {
        return None;
    }
    let negative = s[0] == '-';
    let start: usize = if s[0] == '-' || s[0] == '+' {
        1
    } else {
        0
    };
    let ghost body = if start == 1 {
        s@.skip(1)
    } else {
        s@
    };
    if start == n {
        return None;
    }
    let mut acc: i64 = 0;
    let mut i: usize = start;
    assert(body.take(0) =~= Seq::empty());
    while i < n
        invariant
            start <= i <= n,
            n == s@.len(),
            s@ == word@,
            start == (if s@[0] == '-' || s@[0] == '+' {
                1usize
            } else {
                0usize
            }),
            negative == (s@[0] == '-'),
            body == (if start == 1 {
                s@.skip(1)
            } else {
                s@
            }),
            all_digits(body.take(i - start)),
            acc == digits_value(body.take(i - start)),
            0 <= acc <= 2147483648,
        decreases n - i,
    {
        let ghost prefix = body.take(i - start);
        let ghost next = body.take(i - start + 1);
        proof {
            assert(next.drop_last() =~= prefix);
            assert(next.last() == s@[i as int]);
        }
        match digit_of(s[i]) {
            None => {
                proof {
                    assert(digit_value(body[i - start]) == -1);
                }
                return None;
            },
            Some(d) => {
                proof {
                    assert forall|j: int| 0 <= j < next.len() implies digit_value(#[trigger] next[j])
                        >= 0 by {
                        if j < prefix.len() {
                            assert(next[j] == prefix[j]);
                        }
                    }
                }
                let grown: i64 = acc * 10 + d as i64;
                if grown > 2147483648 {
                    proof {
                        if all_digits(body) {
                            lemma_digits_monotone(body, i - start + 1);
                        }
                    }
                    return None;
                }
                acc = grown;
            },
        }
        i = i + 1;
    }
    proof {
        assert(body.take(n - start) =~= body);
    }
    if negative {
        Some((-acc) as i32)
    } else if acc <= 2147483647 {
        Some(acc as i32)
    } else {
        None
    }
}

} // verus!
