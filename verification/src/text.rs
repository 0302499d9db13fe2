//! Text helpers over characters.
use vstd::prelude::*;

verus! {

/// The characters of a string, in order.
pub fn chars_of(s: &str) -> (res: Vec<char>)
    ensures
        res@ == s@,
{
    broadcast use vstd::string::group_string_axioms;

    let mut v: Vec<char> = Vec::new();
    for c in it: s.chars()
        invariant
            v.len() == it.index(),
            forall|i: int| 0 <= i < v.len() ==> v@[i] == it.seq()[i],
            it.seq() == s@,
    {
        v.push(c);
    }
    assert(v@ =~= s@);
    v
}

} // verus!

verus! {

/// Calls `String::push`, which appends one character.
#[verifier::external_body]
pub(crate) fn push_char(s: &mut String, c: char)
    ensures
        final(s)@ == old(s)@.push(c),
{
    s.push(c);
}

/// Calls `String::push_str`, which appends the characters of `t`.
#[verifier::external_body]
pub(crate) fn push_str(s: &mut String, t: &str)
    ensures
        final(s)@ == old(s)@ + t@,
{
    s.push_str(t);
}

/// A string of the characters `cs.subrange(from, to)`.
pub fn string_of(cs: &[char], from: usize, to: usize) -> (res: String)
    requires
        from <= to <= cs.len(),
    ensures
        res@ == cs@.subrange(from as int, to as int),
{
    let mut s = String::new();
    let mut k = from;
    while k < to
        invariant
            from <= k <= to,
            to <= cs.len(),
            s@ == cs@.subrange(from as int, k as int),
        decreases to - k,
    {
        push_char(&mut s, cs[k]);
        k = k + 1;
        assert(s@ =~= cs@.subrange(from as int, k as int));
    }
    s
}

/// The first position at or after `k` where `x` occurs in `s`, or `s.len()`.
pub open spec fn index_from<T>(s: Seq<T>, x: T, k: int) -> int
    decreases s.len() - k,
{
    if k >= s.len() || k < 0 {
        s.len() as int
    } else if s[k] == x {
        k
    } else {
        index_from(s, x, k + 1)
    }
}

pub proof fn lemma_index_from<T>(s: Seq<T>, x: T, k: int)
    requires
        0 <= k <= s.len(),
    ensures
        k <= index_from(s, x, k) <= s.len(),
        index_from(s, x, k) < s.len() ==> s[index_from(s, x, k)] == x,
        forall|p: int| k <= p < index_from(s, x, k) ==> s[p] != x,
    decreases s.len() - k,
{
    if k < s.len() && s[k] != x {
        lemma_index_from(s, x, k + 1);
    }
}

/// `index_from` is the position of the first occurrence.
pub proof fn lemma_index_from_is(s: Seq<u8>, x: u8, k: int, p: int)
    requires
        0 <= k <= p <= s.len(),
        p == s.len() || s[p] == x,
        forall|q: int| k <= q < p ==> s[q] != x,
    ensures
        index_from(s, x, k) == p,
    decreases p - k,
{
    if k < p {
        lemma_index_from_is(s, x, k + 1, p);
    }
}

/// The first position at or after `k` where the byte `x` occurs, or the length.
pub fn byte_index_from(s: &[u8], x: u8, k: usize) -> (res: usize)
    requires
        k <= s.len(),
    ensures
        res == index_from(s@, x, k as int),
{
    let mut i = k;
    while i < s.len() && s[i] != x
        invariant
            k <= i <= s.len(),
            index_from(s@, x, k as int) == index_from(s@, x, i as int),
        decreases s.len() - i,
    {
        i = i + 1;
    }
    i
}

/// The first position at or after `k` where the character `x` occurs, or the length.
pub fn char_index_from(s: &[char], x: char, k: usize) -> (res: usize)
    requires
        k <= s.len(),
    ensures
        res == index_from(s@, x, k as int),
{
    let mut i = k;
    while i < s.len() && s[i] != x
        invariant
            k <= i <= s.len(),
            index_from(s@, x, k as int) == index_from(s@, x, i as int),
        decreases s.len() - i,
    {
        i = i + 1;
    }
    i
}

/// Appends `src.subrange(from, to)` to `v`.
pub fn push_bytes(v: &mut Vec<u8>, src: &[u8], from: usize, to: usize)
    requires
        from <= to <= src.len(),
    ensures
        final(v)@ == old(v)@ + src@.subrange(from as int, to as int),
{
    let mut k = from;
    while k < to
        invariant
            from <= k <= to,
            to <= src.len(),
            v@ == old(v)@ + src@.subrange(from as int, k as int),
        decreases to - k,
    {
        v.push(src[k]);
        k = k + 1;
        assert(v@ =~= old(v)@ + src@.subrange(from as int, k as int));
    }
}

/// The ASCII digit of a value below ten.
pub open spec fn digit_byte(d: nat) -> u8 {
    ('0' as u8 + d) as u8
}

/// Decimal digits of `n`, without leading zeros.
pub open spec fn decimal(n: nat) -> Seq<u8>
    decreases n,
{
    if n < 10 {
        seq![digit_byte(n)]
    } else {
        decimal(n / 10).push(digit_byte(n % 10))
    }
}

/// Whether a byte is an ASCII digit.
pub open spec fn is_digit(b: u8) -> bool {
    '0' as u8 <= b <= '9' as u8
}

/// The value of a string of ASCII digits.
pub open spec fn digits_value(s: Seq<u8>) -> nat
    decreases s.len(),
{
    if s.len() == 0 {
        0
    } else {
        digits_value(s.drop_last()) * 10 + (s.last() - '0' as u8) as nat
    }
}

/// Text without a leading `+`.
pub open spec fn sign_stripped(s: Seq<u8>) -> Seq<u8> {
    if s.len() > 0 && s[0] == '+' as u8 {
        s.drop_first()
    } else {
        s
    }
}

/// Whether every byte is an ASCII digit.
pub open spec fn all_digits(d: Seq<u8>) -> bool {
    forall|i: int| 0 <= i < d.len() ==> is_digit(#[trigger] d[i])
}

/// What `str::parse::<usize>` makes of text: an optional `+` and at least one
/// ASCII digit, of a value that fits in a `usize`.
pub open spec fn parse_usize_of(s: Seq<u8>) -> Option<usize> {
    let digits = sign_stripped(s);
    if digits.len() > 0 && all_digits(digits) && digits_value(digits) <= usize::MAX {
        Some(digits_value(digits) as usize)
    } else {
        None
    }
}

/// Writes `n` in decimal.
pub fn decimal_bytes(n: usize) -> (res: Vec<u8>)
    ensures
        res@ == decimal(n as nat),
    decreases n,
{
    if n < 10 {
        let mut v = Vec::new();
        v.push('0' as u8 + n as u8);
        v
    } else {
        let mut v = decimal_bytes(n / 10);
        v.push('0' as u8 + (n % 10) as u8);
        v
    }
}

/// Parses text as `str::parse::<usize>` does.
pub fn parse_usize(s: &[u8]) -> (res: Option<usize>)
    ensures
        res == parse_usize_of(s@),
{
    let start: usize = if s.len() > 0 && s[0] == '+' as u8 {
        1
    } else {
        0
    };
    let ghost digits = s@.subrange(start as int, s.len() as int);
    proof {
        if start == 1 {
            assert(digits =~= s@.drop_first());
        } else {
            assert(digits =~= s@);
        }
    }
    if start == s.len() {
        return None;
    }
    let mut v: usize = 0;
    let mut i = start;
    while i < s.len()
        invariant
            start <= i <= s.len(),
            digits == s@.subrange(start as int, s.len() as int),
            digits == sign_stripped(s@),
            forall|q: int| 0 <= q < i - start ==> is_digit(#[trigger] digits[q]),
            v as nat == digits_value(s@.subrange(start as int, i as int)),
        decreases s.len() - i,
    {
        let b = s[i];
        if b < '0' as u8 || b > '9' as u8 {
            assert(digits[i - start] == b);
            assert(!is_digit(digits[i - start]));
            return None;
        }
        let ghost prefix = s@.subrange(start as int, i as int);
        assert(s@.subrange(start as int, i + 1).drop_last() =~= prefix);
        let d = (b - '0' as u8) as usize;
        assert(s@.subrange(start as int, i + 1).last() == b);
        assert(digits_value(s@.subrange(start as int, i + 1)) == v * 10 + d);
        match v.checked_mul(10) {
            Some(t) => match t.checked_add(d) {
                Some(w) => {
                    v = w;
                },
                None => {
                    proof {
                        lemma_digits_value_prefix(digits, i + 1 - start);
                        assert(digits.subrange(0, i + 1 - start) =~= s@.subrange(start as int, i + 1));
                    }
                    return None;
                },
            },
            None => {
                proof {
                    lemma_digits_value_prefix(digits, i + 1 - start);
                    assert(digits.subrange(0, i + 1 - start) =~= s@.subrange(start as int, i + 1));
                }
                return None;
            },
        }
        i = i + 1;
    }
    assert(s@.subrange(start as int, s.len() as int) =~= digits);
    Some(v)
}

/// The value of a digit string is at least the value of any of its prefixes.
pub proof fn lemma_digits_value_prefix(s: Seq<u8>, k: int)
    requires
        0 <= k <= s.len(),
    ensures
        digits_value(s.subrange(0, k)) <= digits_value(s),
    decreases s.len() - k,
{
    if k < s.len() {
        lemma_digits_value_prefix(s.drop_last(), k);
        assert(s.drop_last().subrange(0, k) =~= s.subrange(0, k));
    } else {
        assert(s.subrange(0, k) =~= s);
    }
}

/// Decimal text has only digits, and its value is the number written.
pub proof fn lemma_decimal(n: nat)
    ensures
        decimal(n).len() > 0,
        forall|i: int| 0 <= i < decimal(n).len() ==> is_digit(#[trigger] decimal(n)[i]),
        digits_value(decimal(n)) == n,
    decreases n,
{
    if n >= 10 {
        lemma_decimal(n / 10);
        assert(decimal(n).drop_last() =~= decimal(n / 10));
        assert(decimal(n).last() == digit_byte(n % 10));
        assert((digit_byte(n % 10) - '0' as u8) as nat == n % 10);
        assert(n == (n / 10) * 10 + n % 10);
        assert(digits_value(decimal(n)) == digits_value(decimal(n / 10)) * 10 + n % 10);
    } else {
        assert(decimal(n).drop_last() =~= Seq::<u8>::empty());
        assert(decimal(n).last() == digit_byte(n));
        assert((digit_byte(n) - '0' as u8) as nat == n);
        assert(digits_value(decimal(n)) == digits_value(Seq::<u8>::empty()) * 10 + n);
    }
}

/// Parsing decimal text gives the number back.
pub proof fn lemma_parse_decimal(n: usize)
    ensures
        parse_usize_of(decimal(n as nat)) == Some(n),
{
    lemma_decimal(n as nat);
}

} // verus!

verus! {

/// Whether a character is white space (`char::is_whitespace`: the Unicode
/// `White_Space` property).
pub open spec fn is_ws(c: char) -> bool {
    ||| ('\u{9}' <= c && c <= '\u{d}')
    ||| c == ' '
    ||| c == '\u{85}'
    ||| c == '\u{a0}'
    ||| c == '\u{1680}'
    ||| ('\u{2000}' <= c && c <= '\u{200a}')
    ||| c == '\u{2028}'
    ||| c == '\u{2029}'
    ||| c == '\u{202f}'
    ||| c == '\u{205f}'
    ||| c == '\u{3000}'
}

/// Text without leading white space.
pub open spec fn trim_start(s: Seq<char>) -> Seq<char>
    decreases s.len(),
{
    if s.len() > 0 && is_ws(s[0]) {
        trim_start(s.drop_first())
    } else {
        s
    }
}

/// Text without trailing white space.
pub open spec fn trim_end(s: Seq<char>) -> Seq<char>
    decreases s.len(),
{
    if s.len() > 0 && is_ws(s.last()) {
        trim_end(s.drop_last())
    } else {
        s
    }
}

/// Text without leading or trailing white space (`str::trim`).
pub open spec fn trim(s: Seq<char>) -> Seq<char> {
    trim_end(trim_start(s))
}

/// Whether `s` begins with `p`.
pub open spec fn starts_with(s: Seq<char>, p: Seq<char>) -> bool {
    p.len() <= s.len() && s.subrange(0, p.len() as int) == p
}

/// The lines of text as `str::lines` gives them: split at `\n`, a `\r`
/// right before the `\n` dropped, and no empty line after a final `\n`.
pub open spec fn text_lines(s: Seq<char>) -> Seq<Seq<char>>
    decreases s.len(),
{
    if s.len() == 0 {
        Seq::empty()
    } else {
        let k = index_from(s, '\n', 0);
        if k >= s.len() {
            seq![s]
        } else {
            let line = if k > 0 && s[k - 1] == '\r' {
                s.subrange(0, k - 1)
            } else {
                s.subrange(0, k)
            };
            proof {
                lemma_index_from(s, '\n', 0);
            }
            seq![line] + text_lines(s.subrange(k + 1, s.len() as int))
        }
    }
}

/// Whether a character is white space.
pub fn char_is_ws(c: char) -> (res: bool)
    ensures
        res == is_ws(c),
{
    ('\u{9}' <= c && c <= '\u{d}') || c == ' ' || c == '\u{85}' || c == '\u{a0}' || c == '\u{1680}'
        || ('\u{2000}' <= c && c <= '\u{200a}') || c == '\u{2028}' || c == '\u{2029}' || c
        == '\u{202f}' || c == '\u{205f}' || c == '\u{3000}'
}

/// The characters `cs.subrange(from, to)` without leading or trailing white space.
pub fn trim_range(cs: &[char], from: usize, to: usize) -> (res: String)
    requires
        from <= to <= cs.len(),
    ensures
        res@ == trim(cs@.subrange(from as int, to as int)),
{
    let ghost s = cs@.subrange(from as int, to as int);
    let mut i = from;
    while i < to && char_is_ws(cs[i])
        invariant
            from <= i <= to,
            to <= cs.len(),
            s == cs@.subrange(from as int, to as int),
            trim_start(s) == trim_start(cs@.subrange(i as int, to as int)),
        decreases to - i,
    {
        proof {
            let t = cs@.subrange(i as int, to as int);
            assert(t.drop_first() =~= cs@.subrange(i + 1, to as int));
        }
        i = i + 1;
    }
    proof {
        let t = cs@.subrange(i as int, to as int);
        if t.len() > 0 {
            assert(t[0] == cs@[i as int]);
        }
        assert(trim_start(t) == t);
    }
    let mut j = to;
    while j > i && char_is_ws(cs[j - 1])
        invariant
            from <= i <= j <= to,
            to <= cs.len(),
            trim_end(cs@.subrange(i as int, to as int)) == trim_end(cs@.subrange(i as int, j as int)),
        decreases j,
    {
        proof {
            let t = cs@.subrange(i as int, j as int);
            assert(t.drop_last() =~= cs@.subrange(i as int, j - 1));
        }
        j = j - 1;
    }
    proof {
        let t = cs@.subrange(i as int, j as int);
        if t.len() > 0 {
            assert(t.last() == cs@[j - 1]);
        }
        assert(trim_end(t) == t);
    }
    string_of(cs, i, j)
}

/// A string without leading or trailing white space.
pub fn trim_string(s: &str) -> (res: String)
    ensures
        res@ == trim(s@),
{
    let cs = chars_of(s);
    proof {
        assert(cs@.subrange(0, cs@.len() as int) =~= s@);
    }
    trim_range(cs.as_slice(), 0, cs.len())
}

/// Whether the characters `cs.subrange(from, cs.len())` begin with `p`.
pub fn chars_start_with(cs: &[char], from: usize, p: &str) -> (res: bool)
    requires
        from <= cs.len(),
    ensures
        res == starts_with(cs@.subrange(from as int, cs.len() as int), p@),
{
    let pc = chars_of(p);
    if pc.len() > cs.len() - from {
        return false;
    }
    let mut k: usize = 0;
    while k < pc.len()
        invariant
            from <= cs.len(),
            pc.len() <= cs.len() - from,
            pc@ == p@,
            k <= pc.len(),
            forall|q: int| 0 <= q < k ==> cs@[from + q] == pc@[q],
        decreases pc.len() - k,
    {
        if cs[from + k] != pc[k] {
            assert(cs@.subrange(from as int, cs.len() as int).subrange(0, p@.len() as int)[k as int] != p@[k as int]);
            return false;
        }
        k = k + 1;
    }
    assert(cs@.subrange(from as int, cs.len() as int).subrange(0, p@.len() as int) =~= p@);
    true
}

/// Whether `s` begins with `p`.
pub fn str_starts_with(s: &str, p: &str) -> (res: bool)
    ensures
        res == starts_with(s@, p@),
{
    let cs = chars_of(s);
    assert(cs@.subrange(0, cs@.len() as int) =~= s@);
    chars_start_with(cs.as_slice(), 0, p)
}

/// The lines of the characters `cs`, as `str::lines` gives them.
pub fn lines_of_chars(cs: &[char]) -> (res: Vec<String>)
    ensures
        crate::diff3::lines_view(res@) == text_lines(cs@),
{
    let mut out: Vec<String> = Vec::new();
    let mut pos: usize = 0;
    assert(cs@.subrange(0, cs.len() as int) =~= cs@);
    assert(crate::diff3::lines_view(out@) + text_lines(cs@) =~= text_lines(cs@));
    while pos < cs.len()
        invariant
            pos <= cs.len(),
            text_lines(cs@) == crate::diff3::lines_view(out@) + text_lines(cs@.subrange(pos as int, cs.len() as int)),
        decreases cs.len() - pos,
    {
        let ghost rest = cs@.subrange(pos as int, cs.len() as int);
        let ghost before = out@;
        let k = char_index_from(cs, '\n', pos);
        proof {
            lemma_index_from(cs@, '\n', pos as int);
            lemma_index_from(rest, '\n', 0);
            assert forall|q: int| pos <= q <= cs.len() implies index_from(rest, '\n', q - pos) == index_from(cs@, '\n', q) - pos by {
                lemma_index_shift(cs@, '\n', pos as int, q);
            }
        }
        if k == cs.len() {
            out.push(string_of(cs, pos, cs.len()));
            proof {
                assert(crate::diff3::lines_view(out@) =~= crate::diff3::lines_view(before) + seq![rest]);
                assert(cs@.subrange(cs.len() as int, cs.len() as int) =~= Seq::<char>::empty());
                assert(crate::diff3::lines_view(out@) + text_lines(Seq::<char>::empty()) =~= crate::diff3::lines_view(out@));
            }
            pos = cs.len();
        } else {
            let end = if k > pos && cs[k - 1] == '\r' {
                k - 1
            } else {
                k
            };
            out.push(string_of(cs, pos, end));
            proof {
                assert(rest.subrange(k + 1 - pos, rest.len() as int) =~= cs@.subrange(k + 1, cs.len() as int));
                assert(cs@.subrange(pos as int, end as int) =~= rest.subrange(0, end - pos));
                assert(crate::diff3::lines_view(out@) =~= crate::diff3::lines_view(before) + seq![rest.subrange(0, end - pos)]);
            }
            pos = k + 1;
        }
    }
    assert(cs@.subrange(pos as int, cs.len() as int) =~= Seq::<char>::empty());
    assert(crate::diff3::lines_view(out@) + text_lines(Seq::<char>::empty()) =~= crate::diff3::lines_view(out@));
    out
}

proof fn lemma_index_shift(s: Seq<char>, x: char, base: int, q: int)
    requires
        0 <= base <= q <= s.len(),
    ensures
        index_from(s.subrange(base, s.len() as int), x, q - base) == index_from(s, x, q) - base,
    decreases s.len() - q,
{
    if q < s.len() && s[q] != x {
        lemma_index_shift(s, x, base, q + 1);
    }
}

/// The lines of a string, as `str::lines` gives them.
pub fn lines_of(s: &str) -> (res: Vec<String>)
    ensures
        crate::diff3::lines_view(res@) == text_lines(s@),
{
    let cs = chars_of(s);
    lines_of_chars(cs.as_slice())
}

} // verus!

verus! {

/// The pieces of `s` between occurrences of `c` (`str::split` with a
/// character): one more piece than there are occurrences.
pub open spec fn split_on(s: Seq<char>, c: char) -> Seq<Seq<char>>
    decreases s.len(),
{
    let k = index_from(s, c, 0);
    if k >= s.len() {
        seq![s]
    } else {
        proof {
            lemma_index_from(s, c, 0);
        }
        seq![s.subrange(0, k)] + split_on(s.subrange(k + 1, s.len() as int), c)
    }
}

/// At most `n` pieces of `s` split at `c`, the last holding the rest
/// (`str::splitn`).
pub open spec fn splitn_on(s: Seq<char>, n: nat, c: char) -> Seq<Seq<char>>
    decreases n,
{
    if n == 0 {
        Seq::empty()
    } else if n == 1 {
        seq![s]
    } else {
        let k = index_from(s, c, 0);
        if k >= s.len() {
            seq![s]
        } else {
            seq![s.subrange(0, k)] + splitn_on(s.subrange(k + 1, s.len() as int), (n - 1) as nat, c)
        }
    }
}

/// The pieces joined with `sep` between them (`[T]::join`).
pub open spec fn join_with(pieces: Seq<Seq<char>>, sep: Seq<char>) -> Seq<char>
    decreases pieces.len(),
{
    if pieces.len() == 0 {
        Seq::empty()
    } else if pieces.len() == 1 {
        pieces[0]
    } else {
        pieces[0] + sep + join_with(pieces.drop_first(), sep)
    }
}

/// Text with every leading copy of `p` removed (`str::trim_start_matches`).
pub open spec fn strip_all_prefix(s: Seq<char>, p: Seq<char>) -> Seq<char>
    decreases s.len(),
{
    if p.len() > 0 && starts_with(s, p) {
        strip_all_prefix(s.subrange(p.len() as int, s.len() as int), p)
    } else {
        s
    }
}

/// The words of text: the non-empty runs between white space
/// (`str::split_whitespace`).
pub open spec fn words(s: Seq<char>) -> Seq<Seq<char>>
    decreases s.len(),
{
    if s.len() == 0 {
        Seq::empty()
    } else if is_ws(s[0]) {
        words(s.drop_first())
    } else {
        let k = word_end(s, 0);
        proof {
            lemma_word_end(s, 0);
        }
        seq![s.subrange(0, k)] + words(s.subrange(k, s.len() as int))
    }
}

/// The end of the run of non-white-space characters from `k` on.
pub open spec fn word_end(s: Seq<char>, k: int) -> int
    decreases s.len() - k,
{
    if k < 0 || k >= s.len() || is_ws(s[k]) {
        k
    } else {
        word_end(s, k + 1)
    }
}

pub proof fn lemma_word_end(s: Seq<char>, k: int)
    requires
        0 <= k <= s.len(),
    ensures
        k <= word_end(s, k) <= s.len(),
        word_end(s, k) < s.len() ==> is_ws(s[word_end(s, k)]),
        forall|q: int| k <= q < word_end(s, k) ==> !is_ws(s[q]),
    decreases s.len() - k,
{
    if k < s.len() && !is_ws(s[k]) {
        lemma_word_end(s, k + 1);
    }
}

/// Whether `s` holds the character `c`.
pub open spec fn has_char(s: Seq<char>, c: char) -> bool {
    exists|i: int| 0 <= i < s.len() && s[i] == c
}

proof fn lemma_index_shift_char(s: Seq<char>, x: char, base: int, q: int)
    requires
        0 <= base <= q <= s.len(),
    ensures
        index_from(s.subrange(base, s.len() as int), x, q - base) == index_from(s, x, q) - base,
    decreases s.len() - q,
{
    if q < s.len() && s[q] != x {
        lemma_index_shift_char(s, x, base, q + 1);
    }
}

pub proof fn lemma_index_from_absent(s: Seq<char>, x: char, k: int)
    requires
        0 <= k <= s.len(),
        !has_char(s, x),
    ensures
        index_from(s, x, k) == s.len(),
    decreases s.len() - k,
{
    if k < s.len() {
        assert(s[k] != x);
        lemma_index_from_absent(s, x, k + 1);
    }
}

/// Splitting joined pieces at the separator gives the pieces back, when no
/// piece holds the separator.
pub proof fn lemma_split_join(pieces: Seq<Seq<char>>, c: char)
    requires
        pieces.len() > 0,
        forall|i: int| 0 <= i < pieces.len() ==> !has_char(#[trigger] pieces[i], c),
    ensures
        split_on(join_with(pieces, seq![c]), c) == pieces,
    decreases pieces.len(),
{
    let p0 = pieces[0];
    assert(!has_char(pieces[0], c));
    if pieces.len() == 1 {
        lemma_index_from_absent(p0, c, 0);
        assert(pieces =~= seq![p0]);
    } else {
        let rest = pieces.drop_first();
        assert forall|i: int| 0 <= i < rest.len() implies !has_char(#[trigger] rest[i], c) by {
            assert(rest[i] == pieces[i + 1]);
        }
        lemma_split_join(rest, c);
        let j = join_with(pieces, seq![c]);
        let jr = join_with(rest, seq![c]);
        assert(j == p0 + seq![c] + jr);
        assert forall|q: int| 0 <= q < p0.len() implies j[q] != c by {
            assert(j[q] == p0[q]);
        }
        assert(j[p0.len() as int] == c);
        lemma_index_from_is_char(j, c, 0, p0.len() as int);
        assert(j.subrange(0, p0.len() as int) =~= p0);
        assert(j.subrange(p0.len() + 1int, j.len() as int) =~= jr);
        assert(pieces =~= seq![p0] + rest);
    }
}

/// Splitting at `c` text whose first `c` ends the piece `x` gives `x`, then
/// the pieces of the rest.
pub proof fn lemma_split_first(x: Seq<char>, y: Seq<char>, c: char)
    requires
        !has_char(x, c),
    ensures
        split_on(x + seq![c] + y, c) == seq![x] + split_on(y, c),
        forall|n: nat|
            n >= 2 ==> #[trigger] splitn_on(x + seq![c] + y, n, c) == seq![x] + splitn_on(
                y,
                (n - 1) as nat,
                c,
            ),
{
    let s = x + seq![c] + y;
    assert forall|q: int| 0 <= q < x.len() implies s[q] != c by {
        assert(s[q] == x[q]);
    }
    assert(s[x.len() as int] == c);
    lemma_index_from_is_char(s, c, 0, x.len() as int);
    assert(s.subrange(0, x.len() as int) =~= x);
    assert(s.subrange(x.len() + 1int, s.len() as int) =~= y);
}

/// Text without `c` is one piece, however it is split at `c`.
pub proof fn lemma_split_none(x: Seq<char>, c: char)
    requires
        !has_char(x, c),
    ensures
        split_on(x, c) == seq![x],
        forall|n: nat| n >= 1 ==> #[trigger] splitn_on(x, n, c) == seq![x],
{
    lemma_index_from_absent(x, c, 0);
}

/// Joined pieces hold `c` only where a piece or the separator does.
pub proof fn lemma_join_no_char(pieces: Seq<Seq<char>>, sep: Seq<char>, c: char)
    requires
        !has_char(sep, c),
        forall|i: int| 0 <= i < pieces.len() ==> !has_char(#[trigger] pieces[i], c),
    ensures
        !has_char(join_with(pieces, sep), c),
    decreases pieces.len(),
{
    if pieces.len() >= 2 {
        let rest = pieces.drop_first();
        assert forall|i: int| 0 <= i < rest.len() implies !has_char(#[trigger] rest[i], c) by {
            assert(rest[i] == pieces[i + 1]);
        }
        lemma_join_no_char(rest, sep, c);
        let p0 = pieces[0];
        assert(!has_char(p0, c));
        let j = join_with(pieces, sep);
        let jr = join_with(rest, sep);
        assert(j == p0 + sep + jr);
        assert forall|q: int| 0 <= q < j.len() implies j[q] != c by {
            if q < p0.len() {
                assert(j[q] == p0[q]);
            } else if q < p0.len() + sep.len() {
                assert(j[q] == sep[q - p0.len()]);
            } else {
                assert(j[q] == jr[q - p0.len() - sep.len()]);
            }
        }
    } else if pieces.len() == 1 {
        assert(!has_char(pieces[0], c));
    }
}

/// The end of a run of characters that are not white space, where the run
/// is known.
pub proof fn lemma_word_end_at(s: Seq<char>, k: int, e: int)
    requires
        0 <= k <= e <= s.len(),
        forall|q: int| k <= q < e ==> !is_ws(s[q]),
        e == s.len() || is_ws(s[e]),
    ensures
        word_end(s, k) == e,
    decreases e - k,
{
    if k < e {
        lemma_word_end_at(s, k + 1, e);
    }
}

/// Text without white space is one word.
pub proof fn lemma_words_one(w: Seq<char>)
    requires
        w.len() > 0,
        forall|q: int| 0 <= q < w.len() ==> !is_ws(w[q]),
    ensures
        words(w) == seq![w],
{
    lemma_word_end_at(w, 0, w.len() as int);
    assert(!is_ws(w[0]));
    assert(w.subrange(0, w.len() as int) =~= w);
    let e = w.subrange(w.len() as int, w.len() as int);
    assert(e =~= Seq::<char>::empty());
    assert(words(e) == Seq::<Seq<char>>::empty());
    assert(words(w) == seq![w] + words(e));
    assert(seq![w] + Seq::<Seq<char>>::empty() =~= seq![w]);
}

/// Two words with a space between them are those two words.
pub proof fn lemma_words_pair(a: Seq<char>, b: Seq<char>)
    requires
        a.len() > 0,
        b.len() > 0,
        forall|q: int| 0 <= q < a.len() ==> !is_ws(a[q]),
        forall|q: int| 0 <= q < b.len() ==> !is_ws(b[q]),
    ensures
        words(a + seq![' '] + b) == seq![a, b],
{
    let s = a + seq![' '] + b;
    assert forall|q: int| 0 <= q < a.len() implies !is_ws(s[q]) by {
        assert(s[q] == a[q]);
    }
    assert(is_ws(s[a.len() as int]));
    lemma_word_end_at(s, 0, a.len() as int);
    assert(s.subrange(0, a.len() as int) =~= a);
    let r = s.subrange(a.len() as int, s.len() as int);
    assert(r.drop_first() =~= b);
    assert(is_ws(r[0]));
    lemma_words_one(b);
    assert(!is_ws(s[0]));
    assert(words(r) == words(r.drop_first()));
    assert(words(s) == seq![a] + words(r));
    assert(seq![a] + seq![b] =~= seq![a, b]);
}

/// The lines of lines joined at `\n` are those lines, when each is not
/// empty, holds no `\n` and does not end in `\r`.
pub proof fn lemma_lines_join(ls: Seq<Seq<char>>)
    requires
        forall|i: int| 0 <= i < ls.len() ==> (#[trigger] ls[i]).len() > 0 && !has_char(ls[i], '\n')
            && ls[i].last() != '\r',
    ensures
        text_lines(join_with(ls, seq!['\n'])) == ls,
    decreases ls.len(),
{
    if ls.len() == 1 {
        assert(ls[0].len() > 0 && !has_char(ls[0], '\n'));
        lemma_index_from_absent(ls[0], '\n', 0);
        assert(ls =~= seq![ls[0]]);
    } else if ls.len() >= 2 {
        let rest = ls.drop_first();
        assert forall|i: int| 0 <= i < rest.len() implies (#[trigger] rest[i]).len() > 0 && !has_char(
            rest[i],
            '\n',
        ) && rest[i].last() != '\r' by {
            assert(rest[i] == ls[i + 1]);
        }
        lemma_lines_join(rest);
        let l0 = ls[0];
        assert(l0.len() > 0 && !has_char(l0, '\n') && l0.last() != '\r');
        let jr = join_with(rest, seq!['\n']);
        let j = join_with(ls, seq!['\n']);
        assert(j == l0 + seq!['\n'] + jr);
        assert forall|q: int| 0 <= q < l0.len() implies j[q] != '\n' by {
            assert(j[q] == l0[q]);
        }
        assert(j[l0.len() as int] == '\n');
        lemma_index_from_is_char(j, '\n', 0, l0.len() as int);
        assert(j[l0.len() - 1] == l0.last());
        assert(j.subrange(0, l0.len() as int) =~= l0);
        assert(j.subrange(l0.len() + 1int, j.len() as int) =~= jr);
        assert(ls =~= seq![l0] + rest);
    }
}

/// No line of text holds a newline.
pub proof fn lemma_text_lines_plain(s: Seq<char>)
    ensures
        forall|i: int| 0 <= i < text_lines(s).len() ==> !has_char(#[trigger] text_lines(s)[i], '\n'),
    decreases s.len(),
{
    if s.len() > 0 {
        let k = index_from(s, '\n', 0);
        lemma_index_from(s, '\n', 0);
        if k < s.len() {
            let rest = s.subrange(k + 1, s.len() as int);
            lemma_text_lines_plain(rest);
            let line = if k > 0 && s[k - 1] == '\r' {
                s.subrange(0, k - 1)
            } else {
                s.subrange(0, k)
            };
            assert forall|q: int| 0 <= q < line.len() implies line[q] != '\n' by {
                assert(line[q] == s[q]);
            }
            let ls = text_lines(s);
            assert(ls == seq![line] + text_lines(rest));
            assert forall|i: int| 0 <= i < ls.len() implies !has_char(#[trigger] ls[i], '\n') by {
                if i > 0 {
                    assert(ls[i] == text_lines(rest)[i - 1]);
                }
            }
        } else {
            assert forall|q: int| 0 <= q < s.len() implies s[q] != '\n' by {}
        }
    }
}

/// The lines of lines joined at `\n`, each ending in `\n`, are those lines,
/// when there is one at least and each is not empty, holds no `\n` and does
/// not end in `\r`.
pub proof fn lemma_lines_join_terminated(ls: Seq<Seq<char>>)
    requires
        ls.len() > 0,
        forall|i: int| 0 <= i < ls.len() ==> (#[trigger] ls[i]).len() > 0 && !has_char(ls[i], '\n')
            && ls[i].last() != '\r',
    ensures
        text_lines(join_with(ls, seq!['\n']) + seq!['\n']) == ls,
    decreases ls.len(),
{
    let l0 = ls[0];
    assert(l0.len() > 0 && !has_char(l0, '\n') && l0.last() != '\r');
    let rest = ls.drop_first();
    let tail = if ls.len() == 1 {
        Seq::<char>::empty()
    } else {
        join_with(rest, seq!['\n']) + seq!['\n']
    };
    let j = join_with(ls, seq!['\n']) + seq!['\n'];
    if ls.len() == 1 {
        assert(j =~= l0 + seq!['\n'] + tail);
    } else {
        assert(j =~= l0 + seq!['\n'] + tail);
        assert forall|i: int| 0 <= i < rest.len() implies (#[trigger] rest[i]).len() > 0 && !has_char(
            rest[i],
            '\n',
        ) && rest[i].last() != '\r' by {
            assert(rest[i] == ls[i + 1]);
        }
        lemma_lines_join_terminated(rest);
    }
    assert forall|q: int| 0 <= q < l0.len() implies j[q] != '\n' by {
        assert(j[q] == l0[q]);
    }
    assert(j[l0.len() as int] == '\n');
    lemma_index_from_is_char(j, '\n', 0, l0.len() as int);
    assert(j[l0.len() - 1] == l0.last());
    assert(j.subrange(0, l0.len() as int) =~= l0);
    assert(j.subrange(l0.len() + 1int, j.len() as int) =~= tail);
    if ls.len() == 1 {
        assert(text_lines(tail) == Seq::<Seq<char>>::empty());
        assert(ls =~= seq![l0]);
        assert(seq![l0] + Seq::<Seq<char>>::empty() =~= seq![l0]);
    } else {
        assert(ls =~= seq![l0] + rest);
    }
}

/// Joining lines that hold no `\n` at `\n` and splitting the text into its
/// lines again gives back each line that is not empty and does not end in
/// `\r`.
pub proof fn lemma_join_keeps_line(ls: Seq<Seq<char>>, i: int)
    requires
        0 <= i < ls.len(),
        forall|q: int| 0 <= q < ls.len() ==> !has_char(#[trigger] ls[q], '\n'),
        ls[i].len() > 0,
        ls[i].last() != '\r',
    ensures
        text_lines(join_with(ls, seq!['\n'])).contains(ls[i]),
    decreases ls.len(),
{
    let l0 = ls[0];
    assert(!has_char(l0, '\n'));
    if ls.len() == 1 {
        lemma_index_from_absent(l0, '\n', 0);
        assert(text_lines(join_with(ls, seq!['\n'])) == seq![l0]);
        assert(seq![l0][0] == ls[i]);
    } else {
        let rest = ls.drop_first();
        let jr = join_with(rest, seq!['\n']);
        let j = join_with(ls, seq!['\n']);
        assert(j == l0 + seq!['\n'] + jr);
        assert forall|q: int| 0 <= q < l0.len() implies j[q] != '\n' by {
            assert(j[q] == l0[q]);
        }
        assert(j[l0.len() as int] == '\n');
        lemma_index_from_is_char(j, '\n', 0, l0.len() as int);
        assert(j.subrange(l0.len() + 1int, j.len() as int) =~= jr);
        let line = if l0.len() > 0 && j[l0.len() - 1] == '\r' {
            j.subrange(0, l0.len() - 1)
        } else {
            j.subrange(0, l0.len() as int)
        };
        assert(text_lines(j) == seq![line] + text_lines(jr));
        if i == 0 {
            assert(j[l0.len() - 1] == l0.last());
            assert(j.subrange(0, l0.len() as int) =~= l0);
            assert((seq![line] + text_lines(jr))[0] == line);
        } else {
            assert forall|q: int| 0 <= q < rest.len() implies !has_char(#[trigger] rest[q], '\n') by {
                assert(rest[q] == ls[q + 1]);
            }
            assert(rest[i - 1] == ls[i]);
            lemma_join_keeps_line(rest, i - 1);
            let t = text_lines(jr);
            let w = choose|x: int| 0 <= x < t.len() && t[x] == ls[i];
            assert((seq![line] + t)[w + 1] == t[w]);
        }
    }
}

/// Trailing white space is trimmed off text after a prefix that does not end
/// in white space as off that text alone.
pub proof fn lemma_trim_end_after(p: Seq<char>, x: Seq<char>)
    requires
        p.len() > 0,
        !is_ws(p.last()),
    ensures
        trim_end(p + x) == p + trim_end(x),
    decreases x.len(),
{
    if x.len() > 0 && is_ws(x.last()) {
        assert((p + x).drop_last() =~= p + x.drop_last());
        lemma_trim_end_after(p, x.drop_last());
    } else if x.len() == 0 {
        assert(p + x =~= p);
    }
}

/// The first `x` from `k` on is at `p` when `p` holds one (or is the end)
/// and nothing between does.
pub proof fn lemma_index_from_is_char(s: Seq<char>, x: char, k: int, p: int)
    requires
        0 <= k <= p <= s.len(),
        p == s.len() || s[p] == x,
        forall|q: int| k <= q < p ==> s[q] != x,
    ensures
        index_from(s, x, k) == p,
    decreases p - k,
{
    if k < p {
        lemma_index_from_is_char(s, x, k + 1, p);
    }
}

/// The pieces of the characters `cs.subrange(from, cs.len())` split at `c`.
pub fn split_chars(cs: &[char], from: usize, c: char) -> (res: Vec<String>)
    requires
        from <= cs.len(),
    ensures
        crate::diff3::lines_view(res@) == split_on(cs@.subrange(from as int, cs.len() as int), c),
{
    let mut out: Vec<String> = Vec::new();
    let mut pos = from;
    assert(crate::diff3::lines_view(out@) + split_on(cs@.subrange(from as int, cs.len() as int), c)
        =~= split_on(cs@.subrange(from as int, cs.len() as int), c));
    loop
        invariant
            from <= pos <= cs.len(),
            split_on(cs@.subrange(from as int, cs.len() as int), c) == crate::diff3::lines_view(out@) + split_on(
                cs@.subrange(pos as int, cs.len() as int),
                c,
            ),
        decreases cs.len() - pos,
    {
        let ghost rest = cs@.subrange(pos as int, cs.len() as int);
        let ghost before = out@;
        let k = char_index_from(cs, c, pos);
        proof {
            lemma_index_from(cs@, c, pos as int);
            lemma_index_shift_char(cs@, c, pos as int, pos as int);
        }
        out.push(string_of(cs, pos, k));
        if k == cs.len() {
            assert(crate::diff3::lines_view(out@) =~= crate::diff3::lines_view(before) + seq![rest]);
            return out;
        }
        proof {
            assert(cs@.subrange(pos as int, k as int) =~= rest.subrange(0, k - pos));
            assert(rest.subrange(k + 1 - pos, rest.len() as int) =~= cs@.subrange(k + 1, cs.len() as int));
            assert(crate::diff3::lines_view(out@) =~= crate::diff3::lines_view(before) + seq![rest.subrange(0, k - pos)]);
        }
        pos = k + 1;
    }
}

/// The pieces of a string split at `c`.
pub fn split_str(s: &str, c: char) -> (res: Vec<String>)
    ensures
        crate::diff3::lines_view(res@) == split_on(s@, c),
{
    let cs = chars_of(s);
    assert(cs@.subrange(0, cs@.len() as int) =~= s@);
    split_chars(cs.as_slice(), 0, c)
}

/// At most `n` pieces of a string split at `c`, the last holding the rest.
pub fn splitn_str(s: &str, n: usize, c: char) -> (res: Vec<String>)
    requires
        n >= 1,
    ensures
        crate::diff3::lines_view(res@) == splitn_on(s@, n as nat, c),
{
    let cs = chars_of(s);
    let mut out: Vec<String> = Vec::new();
    let mut pos: usize = 0;
    let mut left = n;
    assert(cs@.subrange(0, cs@.len() as int) =~= s@);
    assert(crate::diff3::lines_view(out@) + splitn_on(s@, n as nat, c) =~= splitn_on(s@, n as nat, c));
    loop
        invariant
            pos <= cs.len(),
            cs@ == s@,
            left >= 1,
            splitn_on(s@, n as nat, c) == crate::diff3::lines_view(out@) + splitn_on(
                cs@.subrange(pos as int, cs.len() as int),
                left as nat,
                c,
            ),
        decreases left,
    {
        let ghost rest = cs@.subrange(pos as int, cs.len() as int);
        let ghost before = out@;
        if left == 1 {
            out.push(string_of(cs.as_slice(), pos, cs.len()));
            assert(crate::diff3::lines_view(out@) =~= crate::diff3::lines_view(before) + seq![rest]);
            return out;
        }
        let k = char_index_from(cs.as_slice(), c, pos);
        proof {
            lemma_index_from(cs@, c, pos as int);
            lemma_index_shift_char(cs@, c, pos as int, pos as int);
        }
        out.push(string_of(cs.as_slice(), pos, k));
        if k == cs.len() {
            assert(crate::diff3::lines_view(out@) =~= crate::diff3::lines_view(before) + seq![rest]);
            return out;
        }
        proof {
            assert(cs@.subrange(pos as int, k as int) =~= rest.subrange(0, k - pos));
            assert(rest.subrange(k + 1 - pos, rest.len() as int) =~= cs@.subrange(k + 1, cs.len() as int));
            assert(crate::diff3::lines_view(out@) =~= crate::diff3::lines_view(before) + seq![rest.subrange(0, k - pos)]);
        }
        pos = k + 1;
        left = left - 1;
    }
}

/// The pieces joined with `sep` between them.
pub fn join_strings(pieces: &Vec<String>, sep: &str) -> (res: String)
    ensures
        res@ == join_with(crate::diff3::lines_view(pieces@), sep@),
{
    let ghost pv = crate::diff3::lines_view(pieces@);
    if pieces.len() == 0 {
        return String::new();
    }
    let mut out = pieces[pieces.len() - 1].clone();
    let mut k = pieces.len() - 1;
    assert(pv.skip(k as int) =~= seq![pv[k as int]]);
    while k > 0
        invariant
            k < pieces.len(),
            pv == crate::diff3::lines_view(pieces@),
            out@ == join_with(pv.skip(k as int), sep@),
        decreases k,
    {
        k = k - 1;
        let mut next = pieces[k].clone();
        push_str(&mut next, sep);
        push_str(&mut next, out.as_str());
        proof {
            assert(pv.skip(k as int).drop_first() =~= pv.skip(k + 1));
            assert(pv.skip(k as int)[0] == pv[k as int]);
        }
        out = next;
    }
    assert(pv.skip(0) =~= pv);
    out
}

} // verus!

verus! {

/// Text with every leading copy of `p` removed.
pub fn strip_all_prefix_str(s: &str, p: &str) -> (res: String)
    ensures
        res@ == strip_all_prefix(s@, p@),
{
    let cs = chars_of(s);
    let pl = chars_of(p).len();
    let mut pos: usize = 0;
    assert(cs@.subrange(0, cs@.len() as int) =~= s@);
    while pl > 0 && chars_start_with(cs.as_slice(), pos, p)
        invariant
            pos <= cs.len(),
            cs@ == s@,
            pl == p@.len(),
            strip_all_prefix(s@, p@) == strip_all_prefix(cs@.subrange(pos as int, cs.len() as int), p@),
        decreases cs.len() - pos,
    {
        proof {
            assert(cs@.subrange(pos as int, cs.len() as int).subrange(pl as int, cs.len() - pos) =~= cs@.subrange(
                pos + pl,
                cs.len() as int,
            ));
        }
        pos = pos + pl;
    }
    string_of(cs.as_slice(), pos, cs.len())
}

/// The words of a string: the non-empty runs between white space.
pub fn words_of(s: &str) -> (res: Vec<String>)
    ensures
        crate::diff3::lines_view(res@) == words(s@),
{
    let cs = chars_of(s);
    let mut out: Vec<String> = Vec::new();
    let mut pos: usize = 0;
    assert(cs@.subrange(0, cs@.len() as int) =~= s@);
    assert(crate::diff3::lines_view(out@) + words(s@) =~= words(s@));
    while pos < cs.len()
        invariant
            pos <= cs.len(),
            cs@ == s@,
            words(s@) == crate::diff3::lines_view(out@) + words(cs@.subrange(pos as int, cs.len() as int)),
        decreases cs.len() - pos,
    {
        let ghost rest = cs@.subrange(pos as int, cs.len() as int);
        if char_is_ws(cs[pos]) {
            assert(rest.drop_first() =~= cs@.subrange(pos + 1, cs.len() as int));
            pos = pos + 1;
        } else {
            let mut k = pos;
            while k < cs.len() && !char_is_ws(cs[k])
                invariant
                    pos <= k <= cs.len(),
                    word_end(rest, 0) == word_end(rest, k - pos),
                    rest == cs@.subrange(pos as int, cs.len() as int),
                decreases cs.len() - k,
            {
                k = k + 1;
            }
            proof {
                lemma_word_end(rest, 0);
                assert(word_end(rest, (k - pos) as int) == k - pos);
                assert(cs@.subrange(pos as int, k as int) =~= rest.subrange(0, k - pos));
                assert(rest.subrange(k - pos, rest.len() as int) =~= cs@.subrange(k as int, cs.len() as int));
            }
            let ghost before = out@;
            out.push(string_of(cs.as_slice(), pos, k));
            assert(crate::diff3::lines_view(out@) =~= crate::diff3::lines_view(before) + seq![rest.subrange(0, k - pos)]);
            pos = k;
        }
    }
    assert(cs@.subrange(pos as int, cs.len() as int) =~= Seq::<char>::empty());
    assert(crate::diff3::lines_view(out@) + Seq::<Seq<char>>::empty() =~= crate::diff3::lines_view(out@));
    out
}

} // verus!
