//! Characters and strings: the character classes of the language, and the
//! conversions between `String`, `&str` and vectors of characters that the
//! rest of the crate builds on.

use vstd::prelude::*;

verus! {

/// `c` is one of the ten decimal digits.
pub open spec fn is_digit(c: char) -> bool {
    '0' <= c <= '9'
}

/// `c` may start an identifier: an ASCII letter or an underscore.
pub open spec fn is_alpha(c: char) -> bool {
    ('a' <= c <= 'z') || ('A' <= c <= 'Z') || c == '_'
}

/// Whether `char::is_alphanumeric` holds of `c`: the Unicode properties
/// Alphabetic and Number, as the tables compiled into std have them.
pub uninterp spec fn unicode_alphanumeric(c: char) -> bool;

/// `c` may continue an identifier: alphanumeric in Unicode's sense, or an
/// underscore.
pub open spec fn is_identifier_part(c: char) -> bool {
    unicode_alphanumeric(c) || c == '_'
}

/// The kinds of run that the scanner reads: each goes on for as long as the
/// characters belong to it.
pub ghost enum Run {
    /// Decimal digits.
    Digits,
    /// The characters that continue an identifier.
    Identifier,
    /// Everything up to the end of the line.
    Comment,
    /// Everything up to the next double quote.
    Quoted,
}

/// Whether a run of this kind goes on over `c`.
pub open spec fn continues(run: Run, c: char) -> bool {
    match run {
        Run::Digits => is_digit(c),
        Run::Identifier => is_identifier_part(c),
        Run::Comment => c != '\n',
        Run::Quoted => c != '"',
    }
}

/// Where the longest run of the given kind that starts at `from` ends: the
/// first position at or after `from` whose character does not belong to the
/// run, or the end of `src`.
pub open spec fn run_end(src: Seq<char>, from: int, run: Run) -> int
    decreases src.len() - from,
{
    if 0 <= from < src.len() && continues(run, src[from]) {
        run_end(src, from + 1, run)
    } else {
        from
    }
}

/// `run_end` is the one position that a maximal run can end at: everything
/// before it belongs to the run, and the character at it, if there is one,
/// does not.
pub proof fn lemma_run_end(src: Seq<char>, from: int, run: Run)
    requires
        0 <= from <= src.len(),
    ensures
        from <= run_end(src, from, run) <= src.len(),
        forall|i: int| from <= i < run_end(src, from, run) ==> continues(run, #[trigger] src[i]),
        run_end(src, from, run) < src.len() ==> !continues(
            run,
            src[run_end(src, from, run)],
        ),
    decreases src.len() - from,
{
    if from < src.len() && continues(run, src[from]) {
        lemma_run_end(src, from + 1, run);
    }
}

/// A position that everything from `from` on leads up to, and that the run
/// cannot go beyond, is where the run ends.
pub proof fn lemma_run_end_unique(src: Seq<char>, from: int, run: Run, end: int)
    requires
        0 <= from <= end <= src.len(),
        forall|i: int| from <= i < end ==> continues(run, #[trigger] src[i]),
        end < src.len() ==> !continues(run, src[end]),
    ensures
        run_end(src, from, run) == end,
    decreases end - from,
{
    if from < end {
        lemma_run_end_unique(src, from + 1, run, end);
    }
}

/// The number that the digit `c` stands for.
pub open spec fn digit_value(c: char) -> nat
    recommends
        is_digit(c),
{
    (c as int - '0' as int) as nat
}

/// The digit that stands for `d`.
pub open spec fn digit_of(d: nat) -> char
    recommends
        d < 10,
{
    ('0' as int + d) as char
}

/// The decimal numeral of `n`, without leading zeros.
pub open spec fn decimal_text(n: nat) -> Seq<char>
    decreases n,
{
    if n < 10 {
        seq![digit_of(n)]
    } else {
        decimal_text(n / 10).push(digit_of(n % 10))
    }
}

/// `a` and `b` are the same up to `i`, and there `a` ends or has the smaller
/// character.
pub open spec fn decides(a: Seq<char>, b: Seq<char>, i: int) -> bool {
    &&& 0 <= i <= a.len()
    &&& i < b.len()
    &&& a.take(i) == b.take(i)
    &&& i < a.len() ==> a[i] < b[i]
}

/// The order of texts: at the first place where two texts differ the smaller
/// character decides, and a text comes before every longer text that it
/// begins.
pub open spec fn text_less(a: Seq<char>, b: Seq<char>) -> bool {
    exists|i: int| decides(a, b, i)
}

/// How far `x` and `y` are the same from `from` on: the first place at or
/// after `from` where they differ or one of them ends.
pub proof fn lemma_common_prefix(x: Seq<char>, y: Seq<char>, from: int) -> (i: int)
    requires
        0 <= from <= x.len(),
        from <= y.len(),
        x.take(from) == y.take(from),
    ensures
        from <= i <= x.len(),
        i <= y.len(),
        x.take(i) == y.take(i),
        i < x.len() && i < y.len() ==> x[i] != y[i],
    decreases x.len() - from,
{
    if from < x.len() && from < y.len() && x[from] == y[from] {
        assert(x.take(from + 1) == x.take(from).push(x[from]));
        assert(y.take(from + 1) == y.take(from).push(y[from]));
        lemma_common_prefix(x, y, from + 1)
    } else {
        from
    }
}

/// No text comes before itself, and of two texts at most one comes before
/// the other.
pub proof fn lemma_text_order_asymmetric(a: Seq<char>, b: Seq<char>)
    ensures
        !text_less(a, a),
        !(text_less(a, b) && text_less(b, a)),
{
    if text_less(a, b) && text_less(b, a) {
        let i = choose|i: int| decides(a, b, i);
        let j = choose|j: int| decides(b, a, j);
        if i < j {
            assert(b.take(j)[i] == b[i]);
            assert(a.take(j)[i] == a[i]);
        } else if j < i {
            assert(a.take(i)[j] == a[j]);
            assert(b.take(i)[j] == b[j]);
        }
    }
}

/// The order of texts is transitive.
pub proof fn lemma_text_order_transitive(a: Seq<char>, b: Seq<char>, c: Seq<char>)
    requires
        text_less(a, b),
        text_less(b, c),
    ensures
        text_less(a, c),
{
    let i = choose|i: int| decides(a, b, i);
    let j = choose|j: int| decides(b, c, j);
    if i <= j {
        assert(a.take(i) == c.take(i)) by {
            assert(b.take(i) == b.take(j).take(i));
            assert(c.take(i) == c.take(j).take(i));
        }
        if i < j {
            assert(b.take(j)[i] == b[i]);
            assert(c.take(j)[i] == c[i]);
        }
        assert(decides(a, c, i));
    } else {
        assert(a.take(j) == c.take(j)) by {
            assert(a.take(j) == a.take(i).take(j));
            assert(b.take(j) == b.take(i).take(j));
        }
        assert(a.take(i)[j] == a[j]);
        assert(b.take(i)[j] == b[j]);
        assert(decides(a, c, j));
    }
}

/// Of two different texts one comes before the other.
pub proof fn lemma_text_order_total(a: Seq<char>, b: Seq<char>)
    requires
        a != b,
    ensures
        text_less(a, b) || text_less(b, a),
{
    assert(a.take(0) == b.take(0));
    let i = lemma_common_prefix(a, b, 0);
    if i < a.len() && i < b.len() {
        if a[i] < b[i] {
            assert(decides(a, b, i));
        } else {
            assert(decides(b, a, i));
        }
    } else if i < b.len() {
        assert(decides(a, b, i));
    } else if i < a.len() {
        assert(decides(b, a, i));
    } else {
        assert(a.take(i) == a);
        assert(b.take(i) == b);
    }
}

/// `String::push` appends one character at the end of the string and leaves
/// the rest as it was.
pub assume_specification[ String::push ](s: &mut String, ch: char)
    ensures
        final(s)@ == old(s)@.push(ch),
;

/// `char::is_alphanumeric` depends on the character alone; its result is
/// named `unicode_alphanumeric` and nothing else is claimed of it.
pub assume_specification[ char::is_alphanumeric ](c: char) -> (b: bool)
    ensures
        b == unicode_alphanumeric(c),
;

/// Whether `c` is a decimal digit.
pub fn is_ascii_digit(c: char) -> (b: bool)
    ensures
        b == is_digit(c),
{
    '0' <= c && c <= '9'
}

/// Whether `c` may start an identifier.
pub fn is_ascii_alpha(c: char) -> (b: bool)
    ensures
        b == is_alpha(c),
{
    ('a' <= c && c <= 'z') || ('A' <= c && c <= 'Z') || c == '_'
}

/// Whether `c` may continue an identifier, given whether it is
/// alphanumeric.
pub fn continues_identifier(c: char, alphanumeric: bool) -> (b: bool)
    ensures
        b == (alphanumeric || c == '_'),
{
    alphanumeric || c == '_'
}

/// Whether `c` may continue an identifier.
pub fn is_alpha_numeric(c: char) -> (b: bool)
    ensures
        b == is_identifier_part(c),
{
    continues_identifier(c, c.is_alphanumeric())
}

/// The characters of `s`, in order.
pub fn chars_of(s: &str) -> (chars: Vec<char>)
    ensures
        chars@ == s@,
{
    let mut chars: Vec<char> = Vec::new();
    for c in it: s.chars()
        invariant
            chars@ == it.seq().take(it.index() as int),
    {
        chars.push(c);
    }
    chars
}

/// The characters `chars[from..to]` as a string.
pub fn text_of(chars: &Vec<char>, from: usize, to: usize) -> (text: String)
    requires
        from <= to <= chars@.len(),
    ensures
        text@ == chars@.subrange(from as int, to as int),
{
    let mut text = String::new();
    let mut i: usize = from;
    while i < to
        invariant
            from <= i <= to <= chars@.len(),
            text@ == chars@.subrange(from as int, i as int),
        decreases to - i,
    {
        text.push(chars[i]);
        i += 1;
    }
    text
}

/// Whether `text` spells `word`.
pub fn is_word(text: &Vec<char>, word: &str) -> (same: bool)
    ensures
        same == (text@ == word@),
{
    let mut i: usize = 0;
    let mut same = true;
    for c in it: word.chars()
        invariant
            it.seq() == word@,
            same ==> i == it.index() && i <= text@.len() && text@.take(i as int) == word@.take(
                i as int,
            ),
            !same ==> text@ != word@,
    {
        if same {
            if i < text.len() && text[i] == c {
                assert(text@.take(i + 1) == text@.take(i as int).push(text@[i as int]));
                assert(word@.take(i + 1) == word@.take(i as int).push(word@[i as int]));
                i += 1;
            } else {
                same = false;
            }
        }
    }
    proof {
        if same {
            assert(word@.take(i as int) == word@);
            if i == text@.len() {
                assert(text@.take(i as int) == text@);
            }
        }
    }
    same && i == text.len()
}

/// Whether `a` comes before `b` in the order of texts.
pub fn comes_before(a: &str, b: &str) -> (before: bool)
    ensures
        before == text_less(a@, b@),
{
    let x = chars_of(a);
    let y = chars_of(b);
    let mut i: usize = 0;
    while i < x.len() && i < y.len()
        invariant
            x@ == a@,
            y@ == b@,
            i <= x@.len(),
            i <= y@.len(),
            x@.take(i as int) == y@.take(i as int),
        decreases x@.len() - i,
    {
        if x[i] != y[i] {
            proof {
                if x@[i as int] < y@[i as int] {
                    assert(decides(x@, y@, i as int));
                } else {
                    assert forall|k: int| !decides(x@, y@, k) by {
                        if decides(x@, y@, k) {
                            lemma_decides_at_first_difference(x@, y@, i as int, k);
                        }
                    }
                }
            }
            return x[i] < y[i];
        }
        assert(x@.take(i + 1) == x@.take(i as int).push(x@[i as int]));
        assert(y@.take(i + 1) == y@.take(i as int).push(y@[i as int]));
        i += 1;
    }
    proof {
        if x.len() < y.len() {
            assert(decides(x@, y@, i as int));
        } else {
            assert forall|k: int| !decides(x@, y@, k) by {
                if decides(x@, y@, k) {
                    assert(x@.take(i as int)[k] == y@.take(i as int)[k]);
                }
            }
        }
    }
    x.len() < y.len()
}

/// Only the first place where two texts differ can decide their order.
pub proof fn lemma_decides_at_first_difference(a: Seq<char>, b: Seq<char>, i: int, k: int)
    requires
        0 <= i < a.len(),
        i < b.len(),
        a.take(i) == b.take(i),
        a[i] != b[i],
        decides(a, b, k),
    ensures
        k == i,
{
    if k < i {
        assert(a.take(i)[k] == a[k]);
        assert(b.take(i)[k] == b[k]);
    } else if k > i {
        assert(a.take(k)[i] == a[i]);
        assert(b.take(k)[i] == b[i]);
    }
}

/// Appends the decimal numeral of `n` to `text`.
fn push_decimal(text: &mut String, n: usize)
    ensures
        final(text)@ == old(text)@ + decimal_text(n as nat),
    decreases n,
{
    if n >= 10 {
        push_decimal(text, n / 10);
    }
    let d: u8 = (n % 10) as u8;
    text.push((48u8 + d) as char);
}

/// The decimal numeral of `n`.
pub fn decimal(n: usize) -> (text: String)
    ensures
        text@ == decimal_text(n as nat),
{
    let mut text = String::new();
    push_decimal(&mut text, n);
    text
}

} // verus!
