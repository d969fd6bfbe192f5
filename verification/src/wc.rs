use vstd::prelude::*;

use vstd::utf8::encode_utf8;

use crate::text::{char_to_string, is_unicode_blank, unicode_blank};

verus! {

/// Which statistics to count, and the file to read them from.
pub struct Cli {
    pub count_lines: bool,
    pub count_words: bool,
    pub count_chars: bool,
    pub count_bytes: bool,
    pub count_all: bool,
    pub path: String,
}

/// The counted statistics for one file.
pub struct ResultWc {
    pub lines: usize,
    pub words: usize,
    pub chars: usize,
    pub bytes: usize,
    pub file_name: String,
}

pub open spec fn is_blank(c: char) -> bool {
    is_unicode_blank(c)
}

/// How many maximal runs of non-blank characters `s` holds.
pub open spec fn word_count(s: Seq<char>) -> int
    decreases s.len(),
{
    if s.len() == 0 {
        0
    } else {
        word_count(s.drop_last()) + (if !is_blank(s.last()) && (s.len() == 1 || is_blank(
            s[s.len() - 2],
        )) {
            1int
        } else {
            0int
        })
    }
}

pub open spec fn sum_words(lines: Seq<String>) -> int
    decreases lines.len(),
{
    if lines.len() == 0 {
        0
    } else {
        sum_words(lines.drop_last()) + word_count(lines.last()@)
    }
}

pub open spec fn sum_chars(lines: Seq<String>) -> int
    decreases lines.len(),
{
    if lines.len() == 0 {
        0
    } else {
        sum_chars(lines.drop_last()) + lines.last()@.len()
    }
}

/// Total length in UTF-8 bytes.
pub open spec fn sum_bytes(lines: Seq<String>) -> int
    decreases lines.len(),
{
    if lines.len() == 0 {
        0
    } else {
        sum_bytes(lines.drop_last()) + encode_utf8(lines.last()@).len()
    }
}

pub proof fn lemma_word_count_nonneg(s: Seq<char>)
    ensures
        word_count(s) >= 0,
    decreases s.len(),
{
    if s.len() > 0 {
        lemma_word_count_nonneg(s.drop_last());
    }
}

pub proof fn lemma_sum_words_nonneg(lines: Seq<String>)
    ensures
        sum_words(lines) >= 0,
    decreases lines.len(),
{
    if lines.len() > 0 {
        lemma_sum_words_nonneg(lines.drop_last());
        lemma_word_count_nonneg(lines.last()@);
    }
}

pub proof fn lemma_sum_words_take(lines: Seq<String>, k: int)
    requires
        0 <= k <= lines.len(),
    ensures
        sum_words(lines.take(k)) <= sum_words(lines),
        sum_words(lines.take(k)) >= 0,
    decreases lines.len() - k, lines.len(),
{
    lemma_sum_words_nonneg(lines.take(k));
    if k == lines.len() {
        assert(lines.take(k) =~= lines);
        if lines.len() > 0 {
            lemma_sum_words_take(lines.drop_last(), lines.len() - 1);
            assert(lines.drop_last().take(lines.len() - 1) =~= lines.drop_last());
            lemma_word_count_nonneg(lines.last()@);
        }
    } else {
        assert(lines.take(k + 1).drop_last() =~= lines.take(k));
        assert(lines.take(k + 1).last() == lines[k]);
        lemma_word_count_nonneg(lines[k]@);
        lemma_sum_words_take(lines, k + 1);
    }
}

pub proof fn lemma_sum_chars_nonneg(lines: Seq<String>)
    ensures
        sum_chars(lines) >= 0,
    decreases lines.len(),
{
    if lines.len() > 0 {
        lemma_sum_chars_nonneg(lines.drop_last());
    }
}

pub proof fn lemma_sum_chars_take(lines: Seq<String>, k: int)
    requires
        0 <= k <= lines.len(),
    ensures
        sum_chars(lines.take(k)) <= sum_chars(lines),
        sum_chars(lines.take(k)) >= 0,
    decreases lines.len() - k, lines.len(),
{
    lemma_sum_chars_nonneg(lines.take(k));
    if k == lines.len() {
        assert(lines.take(k) =~= lines);
        if lines.len() > 0 {
            lemma_sum_chars_take(lines.drop_last(), lines.len() - 1);
            assert(lines.drop_last().take(lines.len() - 1) =~= lines.drop_last());
        }
    } else {
        assert(lines.take(k + 1).drop_last() =~= lines.take(k));
        assert(lines.take(k + 1).last() == lines[k]);
        lemma_sum_chars_take(lines, k + 1);
    }
}

pub proof fn lemma_sum_bytes_nonneg(lines: Seq<String>)
    ensures
        sum_bytes(lines) >= 0,
    decreases lines.len(),
{
    if lines.len() > 0 {
        lemma_sum_bytes_nonneg(lines.drop_last());
    }
}

pub proof fn lemma_sum_bytes_take(lines: Seq<String>, k: int)
    requires
        0 <= k <= lines.len(),
    ensures
        sum_bytes(lines.take(k)) <= sum_bytes(lines),
        sum_bytes(lines.take(k)) >= 0,
    decreases lines.len() - k, lines.len(),
{
    lemma_sum_bytes_nonneg(lines.take(k));
    if k == lines.len() {
        assert(lines.take(k) =~= lines);
        if lines.len() > 0 {
            lemma_sum_bytes_take(lines.drop_last(), lines.len() - 1);
            assert(lines.drop_last().take(lines.len() - 1) =~= lines.drop_last());
        }
    } else {
        assert(lines.take(k + 1).drop_last() =~= lines.take(k));
        assert(lines.take(k + 1).last() == lines[k]);
        lemma_sum_bytes_take(lines, k + 1);
    }
}

fn blank(c: char) -> (r: bool)
    ensures
        r == is_blank(c),
{
    unicode_blank(c)
}

/// Counts the maximal runs of non-blank characters of one line.
fn count_words_str(s: &str) -> (r: usize)
    requires
        s@.len() <= usize::MAX,
    ensures
        r == word_count(s@),
{
    let n = s.unicode_len();
    let mut count: usize = 0;
    let mut prev_blank = true;
    let mut i: usize = 0;
    proof {
        assert(s@.take(0).len() == 0);
        lemma_word_count_nonneg(s@);
    }
    while i < n
        invariant
            0 <= i <= n,
            n == s@.len(),
            count == word_count(s@.take(i as int)),
            count <= i,
            prev_blank == (i == 0 || is_blank(s@[i - 1])),
        decreases n - i,
    {
        let c = s.get_char(i);
        proof {
            assert(s@.take(i + 1).drop_last() =~= s@.take(i as int));
            assert(s@.take(i + 1).last() == s@[i as int]);
            if i > 0 {
                assert(s@.take(i + 1)[i - 1] == s@[i - 1]);
            }
        }
        if !blank(c) && prev_blank {
            count = count + 1;
        }
        prev_blank = blank(c);
        i = i + 1;
    }
    proof {
        assert(s@.take(n as int) =~= s@);
    }
    count
}

/// Counts lines, words, characters and bytes over the given lines, each only
/// when its flag (or the count-all flag, for the first three) asks for it.
pub fn get_statistics(lines: &Vec<String>, args: &Cli, file_name: String) -> (r: ResultWc)
    requires
        sum_words(lines@) <= usize::MAX,
        sum_chars(lines@) <= usize::MAX,
        sum_bytes(lines@) <= usize::MAX,
    ensures
        r.lines == (if args.count_lines || args.count_all {
            lines@.len() as int
        } else {
            0
        }),
        r.words == (if args.count_words || args.count_all {
            sum_words(lines@)
        } else {
            0
        }),
        r.chars == (if args.count_chars || args.count_all {
            sum_chars(lines@)
        } else {
            0
        }),
        r.bytes == (if args.count_bytes {
            sum_bytes(lines@)
        } else {
            0
        }),
        r.file_name@ == file_name@,
{
    let n = lines.len();
    let mut line_count: usize = 0;
    let mut words: usize = 0;
    let mut chars: usize = 0;
    let mut bytes: usize = 0;
    let mut li: usize = 0;
    proof {
        assert(lines@.take(0).len() == 0);
    }
    while li < n
        invariant
            0 <= li <= n,
            n == lines@.len(),
            sum_words(lines@) <= usize::MAX,
            sum_chars(lines@) <= usize::MAX,
            sum_bytes(lines@) <= usize::MAX,
            line_count == (if args.count_lines || args.count_all {
                li as int
            } else {
                0
            }),
            words == (if args.count_words || args.count_all {
                sum_words(lines@.take(li as int))
            } else {
                0
            }),
            chars == (if args.count_chars || args.count_all {
                sum_chars(lines@.take(li as int))
            } else {
                0
            }),
            bytes == (if args.count_bytes {
                sum_bytes(lines@.take(li as int))
            } else {
                0
            }),
        decreases n - li,
    {
        let line: &String = &lines[li];
        proof {
            assert(lines@.take(li + 1).drop_last() =~= lines@.take(li as int));
            assert(lines@.take(li + 1).last() == lines@[li as int]);
            lemma_sum_words_take(lines@, li as int);
            lemma_sum_words_take(lines@, li + 1);
            lemma_sum_chars_take(lines@, li as int);
            lemma_sum_chars_take(lines@, li + 1);
            lemma_sum_bytes_take(lines@, li as int);
            lemma_sum_bytes_take(lines@, li + 1);
        }
        if args.count_lines || args.count_all {
            line_count = line_count + 1;
        }
        if args.count_words || args.count_all {
            words = words + count_words_str(line.as_str());
        }
        if args.count_chars || args.count_all {
            chars = chars + line.as_str().unicode_len();
        }
        if args.count_bytes {
            bytes = bytes + line.as_str().len();
        }
        li = li + 1;
    }
    proof {
        assert(lines@.take(n as int) =~= lines@);
    }
    ResultWc { lines: line_count, words, chars, bytes, file_name }
}

/// The digit character for a value below ten.
pub open spec fn digit_char(d: int) -> char {
    if d == 0 {
        '0'
    } else if d == 1 {
        '1'
    } else if d == 2 {
        '2'
    } else if d == 3 {
        '3'
    } else if d == 4 {
        '4'
    } else if d == 5 {
        '5'
    } else if d == 6 {
        '6'
    } else if d == 7 {
        '7'
    } else if d == 8 {
        '8'
    } else {
        '9'
    }
}

/// The decimal digits of `n`, most significant first.
pub open spec fn dec_str(n: int) -> Seq<char>
    decreases n,
{
    if n < 10 {
        seq![digit_char(n)]
    } else {
        dec_str(n / 10) + seq![digit_char(n % 10)]
    }
}

fn digit(d: usize) -> (r: char)
    requires
        d < 10,
    ensures
        r == digit_char(d as int),
{
    if d == 0 {
        '0'
    } else if d == 1 {
        '1'
    } else if d == 2 {
        '2'
    } else if d == 3 {
        '3'
    } else if d == 4 {
        '4'
    } else if d == 5 {
        '5'
    } else if d == 6 {
        '6'
    } else if d == 7 {
        '7'
    } else if d == 8 {
        '8'
    } else {
        '9'
    }
}

/// Writes `n` in decimal.
fn usize_to_string(n: usize) -> (r: String)
    ensures
        r@ == dec_str(n as int),
{
    let mut digits: Vec<char> = Vec::new();
    let mut m = n;
    if m < 10 {
        return char_digit_string(m);
    }
    while m > 0
        invariant
            0 <= m,
            m > 0 ==> dec_str(n as int) == dec_str(m as int) + digits@.reverse(),
            m == 0 ==> dec_str(n as int) == digits@.reverse(),
        decreases m,
    {
        let d = m % 10;
        proof {
            assert(digits@.push(digit_char(d as int)).reverse() =~= seq![digit_char(d as int)]
                + digits@.reverse());
            if m >= 10 {
                assert(dec_str(m as int) == dec_str(m as int / 10) + seq![digit_char(
                    m as int % 10,
                )]);
                assert((dec_str(m as int / 10) + seq![digit_char(m as int % 10)])
                    + digits@.reverse() =~= dec_str(m as int / 10) + (seq![digit_char(
                    m as int % 10,
                )] + digits@.reverse()));
            } else {
                assert(dec_str(m as int) == seq![digit_char(m as int)]);
            }
        }
        digits.push(digit(d));
        m = m / 10;
    }
    let mut out = String::new();
    let len = digits.len();
    let mut k: usize = 0;
    proof {
        assert(out@ =~= digits@.reverse().take(0));
    }
    while k < len
        invariant
            0 <= k <= len,
            len == digits@.len(),
            dec_str(n as int) == digits@.reverse(),
            out@ == digits@.reverse().take(k as int),
        decreases len - k,
    {
        let c = digits[len - 1 - k];
        let one = char_to_string(c);
        out.append(one.as_str());
        proof {
            assert(digits@.reverse()[k as int] == digits@[len - 1 - k]);
            assert(digits@.reverse().take(k + 1) =~= digits@.reverse().take(k as int).push(
                digits@.reverse()[k as int],
            ));
        }
        k = k + 1;
    }
    proof {
        assert(digits@.reverse().take(len as int) =~= digits@.reverse());
    }
    out
}

fn char_digit_string(m: usize) -> (r: String)
    requires
        m < 10,
    ensures
        r@ == dec_str(m as int),
{
    let c = digit(m);
    char_to_string(c)
}

/// What `format` prints: each non-zero counter in decimal followed by one
/// space, then the file name.
pub open spec fn spec_format(w: ResultWc) -> Seq<char> {
    (if w.lines > 0 {
        dec_str(w.lines as int) + seq![' ']
    } else {
        Seq::empty()
    }) + (if w.words > 0 {
        dec_str(w.words as int) + seq![' ']
    } else {
        Seq::empty()
    }) + (if w.chars > 0 {
        dec_str(w.chars as int) + seq![' ']
    } else {
        Seq::empty()
    }) + (if w.bytes > 0 {
        dec_str(w.bytes as int) + seq![' ']
    } else {
        Seq::empty()
    }) + w.file_name@
}

impl ResultWc {
    /// Lays the counted statistics out on one line.
    pub fn format(&self) -> (r: String)
        ensures
            r@ == spec_format(*self),
    {
        let mut result = String::new();
        proof {
            reveal_strlit(" ");
        }
        if self.lines > 0 {
            let part = usize_to_string(self.lines);
            result.append(part.as_str());
            result.append(" ");
        }
        if self.words > 0 {
            let part = usize_to_string(self.words);
            result.append(part.as_str());
            result.append(" ");
        }
        if self.chars > 0 {
            let part = usize_to_string(self.chars);
            result.append(part.as_str());
            result.append(" ");
        }
        if self.bytes > 0 {
            let part = usize_to_string(self.bytes);
            result.append(part.as_str());
            result.append(" ");
        }
        result.append(self.file_name.as_str());
        proof {
            assert(" "@ =~= seq![' ']);
            assert(result@ =~= spec_format(*self));
        }
        result
    }
}

} // verus!
