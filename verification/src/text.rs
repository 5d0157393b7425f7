//! Character-level text handling shared by the parsers and formatters.
//!
//! Text is processed as sequences of `char`; the specifications below say
//! what each std-style operation (trimming, splitting into lines or words,
//! searching, number formatting) means on such sequences.

use vstd::prelude::*;

verus! {

/// Appends one character to a `String` (std's `String::push`).
#[verifier::external_body]
pub(crate) fn push_char(s: &mut String, c: char)
    ensures
        final(s)@ == old(s)@.push(c),
{
    s.push(c);
}

/// What std's `str::to_lowercase` returns for a string: Unicode lowercase
/// mapping, which this library does not restate.
pub uninterp spec fn lowercase(s: Seq<char>) -> Seq<char>;

/// std's `str::to_lowercase`; its result is named by `lowercase`.
#[verifier::external_body]
pub(crate) fn to_lowercase(s: &str) -> (r: String)
    ensures
        r@ == lowercase(s@),
{
    s.to_lowercase()
}

/// The characters of a string slice, in order.
pub fn chars_of(s: &str) -> (v: Vec<char>)
    ensures
        v@ == s@,
{
    let mut v: Vec<char> = Vec::new();
    for c in it: s.chars()
        invariant
            v@ == it.seq().take(it.index() as int),
            it.seq() == s@,
    {
        v.push(c);
    }
    v
}

/// A `String` holding the given characters.
pub fn string_of(v: &[char]) -> (s: String)
    ensures
        s@ == v@,
{
    let mut s = String::new();
    let mut i: usize = 0;
    while i < v.len()
        invariant
            i <= v.len(),
            s@ == v@.take(i as int),
        decreases v.len() - i,
    {
        push_char(&mut s, v[i]);
        assert(v@.take(i + 1) == v@.take(i as int).push(v@[i as int]));
        i += 1;
    }
    assert(v@.take(v.len() as int) == v@);
    s
}

/// Copies `v[from..to]`.
pub fn slice_chars(v: &[char], from: usize, to: usize) -> (r: Vec<char>)
    requires
        from <= to <= v.len(),
    ensures
        r@ == v@.subrange(from as int, to as int),
{
    let mut r: Vec<char> = Vec::new();
    let mut i = from;
    while i < to
        invariant
            from <= i <= to <= v.len(),
            r@ == v@.subrange(from as int, i as int),
        decreases to - i,
    {
        r.push(v[i]);
        assert(v@.subrange(from as int, i + 1) == v@.subrange(from as int, i as int).push(v@[i as int]));
        i += 1;
    }
    r
}

/// Appends `b` to `a`.
pub fn append_chars(a: &mut Vec<char>, b: &[char])
    ensures
        final(a)@ == old(a)@ + b@,
{
    let mut i: usize = 0;
    while i < b.len()
        invariant
            i <= b.len(),
            a@ == old(a)@ + b@.take(i as int),
        decreases b.len() - i,
    {
        a.push(b[i]);
        assert(b@.take(i + 1) == b@.take(i as int).push(b@[i as int]));
        i += 1;
    }
    assert(b@.take(b.len() as int) == b@);
}

// ---------------------------------------------------------------------------
// Whitespace and trimming
// ---------------------------------------------------------------------------

/// Unicode `White_Space`, which std's `char::is_whitespace` tests.
pub open spec fn is_white(c: char) -> bool {
    let n = c as u32;
    ||| 0x09 <= n <= 0x0d
    ||| n == 0x20
    ||| n == 0x85
    ||| n == 0xa0
    ||| n == 0x1680
    ||| 0x2000 <= n <= 0x200a
    ||| n == 0x2028
    ||| n == 0x2029
    ||| n == 0x202f
    ||| n == 0x205f
    ||| n == 0x3000
}

/// Whether a character is whitespace.
pub fn white(c: char) -> (b: bool)
    ensures
        b == is_white(c),
{
    let n = c as u32;
    (0x09 <= n && n <= 0x0d) || n == 0x20 || n == 0x85 || n == 0xa0 || n == 0x1680 || (0x2000
        <= n && n <= 0x200a) || n == 0x2028 || n == 0x2029 || n == 0x202f || n == 0x205f || n
        == 0x3000
}

/// `s` without leading whitespace (std's `str::trim_start`).
pub open spec fn trim_start(s: Seq<char>) -> Seq<char>
    decreases s.len(),
{
    if s.len() > 0 && is_white(s[0]) {
        trim_start(s.drop_first())
    } else {
        s
    }
}

/// `s` without trailing whitespace (std's `str::trim_end`).
pub open spec fn trim_end(s: Seq<char>) -> Seq<char>
    decreases s.len(),
{
    if s.len() > 0 && is_white(s.last()) {
        trim_end(s.drop_last())
    } else {
        s
    }
}

/// `s` without leading and trailing whitespace (std's `str::trim`).
pub open spec fn trim(s: Seq<char>) -> Seq<char> {
    trim_end(trim_start(s))
}

proof fn lemma_trim_start_at(s: Seq<char>, a: int)
    requires
        0 <= a <= s.len(),
        forall|i: int| 0 <= i < a ==> is_white(#[trigger] s[i]),
        a == s.len() || !is_white(s[a]),
    ensures
        trim_start(s) == s.skip(a),
    decreases a,
{
    if a > 0 {
        assert(s.drop_first().skip(a - 1) == s.skip(a));
        lemma_trim_start_at(s.drop_first(), a - 1);
    } else {
        assert(s.skip(0) == s);
    }
}

proof fn lemma_trim_end_at(s: Seq<char>, b: int)
    requires
        0 <= b <= s.len(),
        forall|i: int| b <= i < s.len() ==> is_white(#[trigger] s[i]),
        b == 0 || !is_white(s[b - 1]),
    ensures
        trim_end(s) == s.take(b),
    decreases s.len() - b,
{
    if b < s.len() {
        assert(s.drop_last().take(b) == s.take(b));
        lemma_trim_end_at(s.drop_last(), b);
    } else {
        assert(s.take(b) == s);
    }
}

/// The index of the first non-whitespace character at or after `from` (or the length).
fn skip_white(v: &[char], from: usize) -> (a: usize)
    requires
        from <= v.len(),
    ensures
        from <= a <= v.len(),
        forall|i: int| from <= i < a ==> is_white(#[trigger] v@[i]),
        a == v.len() || !is_white(v@[a as int]),
{
    let mut a = from;
    while a < v.len() && white(v[a])
        invariant
            from <= a <= v.len(),
            forall|i: int| from <= i < a ==> is_white(#[trigger] v@[i]),
        decreases v.len() - a,
    {
        a += 1;
    }
    a
}

/// Copy of `s` without leading whitespace.
pub fn trim_start_chars(v: &[char]) -> (r: Vec<char>)
    ensures
        r@ == trim_start(v@),
{
    let a = skip_white(v, 0);
    proof {
        lemma_trim_start_at(v@, a as int);
    }
    slice_chars(v, a, v.len())
}

/// Copy of `s` without leading and trailing whitespace.
pub fn trim_chars(v: &[char]) -> (r: Vec<char>)
    ensures
        r@ == trim(v@),
{
    let a = skip_white(v, 0);
    let mut b = v.len();
    while b > a && white(v[b - 1])
        invariant
            a <= b <= v.len(),
            forall|i: int| b <= i < v.len() ==> is_white(#[trigger] v@[i]),
        decreases b,
    {
        b -= 1;
    }
    proof {
        lemma_trim_start_at(v@, a as int);
        let t = v@.skip(a as int);
        assert forall|i: int| b - a <= i < t.len() implies is_white(#[trigger] t[i]) by {
            assert(t[i] == v@[i + a]);
        }
        if b == a {
            lemma_trim_end_at(t, 0);
        } else {
            assert(t[b - a - 1] == v@[b - 1]);
            lemma_trim_end_at(t, b - a);
        }
        assert(t.take(b - a) == v@.subrange(a as int, b as int));
    }
    slice_chars(v, a, b)
}


// ---------------------------------------------------------------------------
// Lines and words
// ---------------------------------------------------------------------------

/// Index of the first occurrence of `c` in `s`, or the length of `s`.
pub open spec fn index_or_len(s: Seq<char>, c: char) -> int
    decreases s.len(),
{
    if s.len() == 0 || s[0] == c {
        0
    } else {
        1 + index_or_len(s.drop_first(), c)
    }
}

pub proof fn lemma_index_or_len(s: Seq<char>, c: char)
    ensures
        0 <= index_or_len(s, c) <= s.len(),
        forall|i: int| 0 <= i < index_or_len(s, c) ==> s[i] != c,
        index_or_len(s, c) < s.len() ==> s[index_or_len(s, c)] == c,
    decreases s.len(),
{
    if s.len() > 0 && s[0] != c {
        lemma_index_or_len(s.drop_first(), c);
        assert forall|i: int| 0 <= i < index_or_len(s, c) implies s[i] != c by {
            if i > 0 {
                assert(s[i] == s.drop_first()[i - 1]);
            }
        }
    }
}

proof fn lemma_index_or_len_at(s: Seq<char>, c: char, k: int)
    requires
        0 <= k <= s.len(),
        forall|i: int| 0 <= i < k ==> #[trigger] s[i] != c,
        k == s.len() || s[k] == c,
    ensures
        index_or_len(s, c) == k,
    decreases k,
{
    if k > 0 {
        assert forall|i: int| 0 <= i < k - 1 implies #[trigger] s.drop_first()[i] != c by {
            assert(s.drop_first()[i] == s[i + 1]);
        }
        lemma_index_or_len_at(s.drop_first(), c, k - 1);
    }
}

/// A line without the carriage return of a `\r\n` ending.
pub open spec fn strip_cr(l: Seq<char>) -> Seq<char> {
    if l.len() > 0 && l.last() == '\r' {
        l.drop_last()
    } else {
        l
    }
}

/// The lines of `s`, as std's `str::lines` yields them: split at `\n`, a `\r`
/// before a `\n` dropped, and no empty line after a final `\n`.
pub open spec fn lines(s: Seq<char>) -> Seq<Seq<char>>
    decreases s.len(),
{
    if s.len() == 0 {
        seq![]
    } else {
        let e = index_or_len(s, '\n');
        if 0 <= e < s.len() {
            seq![strip_cr(s.take(e))] + lines(s.skip(e + 1))
        } else {
            seq![s]
        }
    }
}

/// The lines of a text.
pub fn lines_of(v: &[char]) -> (r: Vec<Vec<char>>)
    ensures
        r@.len() == lines(v@).len(),
        forall|i: int| 0 <= i < r@.len() ==> #[trigger] r@[i]@ == lines(v@)[i],
{
    let mut r: Vec<Vec<char>> = Vec::new();
    let ghost done: Seq<Seq<char>> = seq![];
    let mut start: usize = 0;
    assert(v@.skip(0) == v@);
    assert(done + lines(v@) == lines(v@));
    while start < v.len()
        invariant
            start <= v.len(),
            r@.len() == done.len(),
            forall|i: int| 0 <= i < r@.len() ==> #[trigger] r@[i]@ == done[i],
            lines(v@) == done + lines(v@.skip(start as int)),
        decreases v.len() - start,
    {
        let ghost rest = v@.skip(start as int);
        let mut e = start;
        while e < v.len() && v[e] != '\n'
            invariant
                start <= e <= v.len(),
                forall|i: int| start <= i < e ==> v@[i] != '\n',
            decreases v.len() - e,
        {
            e += 1;
        }
        proof {
            assert forall|i: int| 0 <= i < e - start implies #[trigger] rest[i] != '\n' by {
                assert(rest[i] == v@[i + start]);
            }
            lemma_index_or_len_at(rest, '\n', e - start);
        }
        if e < v.len() {
            let mut line = slice_chars(v, start, e);
            if line.len() > 0 && line[line.len() - 1] == '\r' {
                line.pop();
            }
            proof {
                assert(rest.take(e - start) == v@.subrange(start as int, e as int));
                assert(rest.skip(e - start + 1) == v@.skip(e + 1));
                assert(line@ == strip_cr(rest.take(e - start)));
                done = done.push(line@);
                assert(lines(rest) == seq![line@] + lines(v@.skip(e + 1)));
            }
            r.push(line);
            start = e + 1;
        } else {
            let line = slice_chars(v, start, e);
            proof {
                assert(rest == v@.subrange(start as int, e as int));
                done = done.push(line@);
                assert(lines(v@.skip(v.len() as int)) == Seq::<Seq<char>>::empty());
            }
            r.push(line);
            start = e;
        }
    }
    proof {
        assert(v@.skip(start as int).len() == 0);
        assert(done + Seq::<Seq<char>>::empty() == done);
    }
    r
}


/// Length of the leading run of non-whitespace characters of `s`.
pub open spec fn word_len(s: Seq<char>) -> int
    decreases s.len(),
{
    if s.len() == 0 || is_white(s[0]) {
        0
    } else {
        1 + word_len(s.drop_first())
    }
}

pub proof fn lemma_word_len(s: Seq<char>)
    ensures
        0 <= word_len(s) <= s.len(),
        forall|i: int| 0 <= i < word_len(s) ==> !is_white(#[trigger] s[i]),
        word_len(s) < s.len() ==> is_white(s[word_len(s)]),
    decreases s.len(),
{
    if s.len() > 0 && !is_white(s[0]) {
        lemma_word_len(s.drop_first());
        assert forall|i: int| 0 <= i < word_len(s) implies !is_white(#[trigger] s[i]) by {
            if i > 0 {
                assert(s[i] == s.drop_first()[i - 1]);
            }
        }
    }
}

proof fn lemma_word_len_at(s: Seq<char>, k: int)
    requires
        0 <= k <= s.len(),
        forall|i: int| 0 <= i < k ==> !is_white(#[trigger] s[i]),
        k == s.len() || is_white(s[k]),
    ensures
        word_len(s) == k,
    decreases k,
{
    if k > 0 {
        assert forall|i: int| 0 <= i < k - 1 implies !is_white(#[trigger] s.drop_first()[i]) by {
            assert(s.drop_first()[i] == s[i + 1]);
        }
        lemma_word_len_at(s.drop_first(), k - 1);
    }
}

/// The whitespace-separated words of `s`, as std's `str::split_whitespace` yields them.
pub open spec fn words(s: Seq<char>) -> Seq<Seq<char>>
    decreases s.len(),
{
    if s.len() == 0 {
        seq![]
    } else if is_white(s[0]) {
        words(s.drop_first())
    } else {
        let e = word_len(s);
        if 0 < e <= s.len() {
            seq![s.take(e)] + words(s.skip(e))
        } else {
            seq![]
        }
    }
}

/// The whitespace-separated words of a text.
pub fn words_of(v: &[char]) -> (r: Vec<Vec<char>>)
    ensures
        r@.len() == words(v@).len(),
        forall|i: int| 0 <= i < r@.len() ==> #[trigger] r@[i]@ == words(v@)[i],
{
    let mut r: Vec<Vec<char>> = Vec::new();
    let ghost done: Seq<Seq<char>> = seq![];
    let mut i: usize = 0;
    assert(v@.skip(0) == v@);
    assert(done + words(v@) == words(v@));
    while i < v.len()
        invariant
            i <= v.len(),
            r@.len() == done.len(),
            forall|k: int| 0 <= k < r@.len() ==> #[trigger] r@[k]@ == done[k],
            words(v@) == done + words(v@.skip(i as int)),
        decreases v.len() - i,
    {
        let ghost rest = v@.skip(i as int);
        if white(v[i]) {
            assert(rest.drop_first() == v@.skip(i + 1));
            i += 1;
        } else {
            let mut e = i;
            while e < v.len() && !white(v[e])
                invariant
                    i <= e <= v.len(),
                    forall|k: int| i <= k < e ==> !is_white(#[trigger] v@[k]),
                decreases v.len() - e,
            {
                e += 1;
            }
            proof {
                assert forall|k: int| 0 <= k < e - i implies !is_white(#[trigger] rest[k]) by {
                    assert(rest[k] == v@[k + i]);
                }
                lemma_word_len_at(rest, e - i);
                assert(rest.take(e - i) == v@.subrange(i as int, e as int));
                assert(rest.skip(e - i) == v@.skip(e as int));
            }
            let word = slice_chars(v, i, e);
            proof {
                done = done.push(word@);
            }
            r.push(word);
            i = e;
        }
    }
    proof {
        assert(v@.skip(i as int).len() == 0);
        assert(done + Seq::<Seq<char>>::empty() == done);
    }
    r
}

// ---------------------------------------------------------------------------
// Searching
// ---------------------------------------------------------------------------

/// `n` occurs in `h` at index `i`.
pub open spec fn occurs_at(h: Seq<char>, n: Seq<char>, i: int) -> bool {
    0 <= i && i + n.len() <= h.len() && h.subrange(i, i + n.len()) == n
}

/// `n` occurs in `h` (std's `str::contains` with a string pattern).
pub open spec fn has_sub(h: Seq<char>, n: Seq<char>) -> bool {
    exists|i: int| occurs_at(h, n, i)
}

/// `i` is the first index at which `n` occurs in `h`.
pub open spec fn first_at(h: Seq<char>, n: Seq<char>, i: int) -> bool {
    occurs_at(h, n, i) && forall|j: int| 0 <= j < i ==> !occurs_at(h, n, j)
}

/// The first index at which `n` occurs in `h` (std's `str::find`, counted in characters).
pub open spec fn find_sub(h: Seq<char>, n: Seq<char>) -> Option<int> {
    if exists|i: int| first_at(h, n, i) {
        Some(choose|i: int| first_at(h, n, i))
    } else {
        None
    }
}

/// `s` begins with `p`.
pub open spec fn starts_with(s: Seq<char>, p: Seq<char>) -> bool {
    p.len() <= s.len() && s.take(p.len() as int) == p
}

/// Whether `n` occurs in `h` at index `i`.
pub fn matches_at(h: &[char], n: &[char], i: usize) -> (b: bool)
    ensures
        b == occurs_at(h@, n@, i as int),
{
    if i > h.len() || n.len() > h.len() - i {
        return false;
    }
    let mut k: usize = 0;
    while k < n.len()
        invariant
            k <= n.len(),
            i + n.len() <= h.len(),
            forall|j: int| 0 <= j < k ==> h@[i + j] == n@[j],
        decreases n.len() - k,
    {
        if h[i + k] != n[k] {
            assert(h@.subrange(i as int, i + n.len())[k as int] != n@[k as int]);
            return false;
        }
        k += 1;
    }
    assert(h@.subrange(i as int, i + n.len()) =~= n@);
    true
}

/// Whether `p` begins `s`.
pub fn starts_with_chars(s: &[char], p: &[char]) -> (b: bool)
    ensures
        b == starts_with(s@, p@),
{
    let b = matches_at(s, p, 0);
    assert(s@.subrange(0, p@.len() as int) == s@.take(p@.len() as int));
    b
}

/// The first index at which `n` occurs in `h`.
pub fn find_chars(h: &[char], n: &[char]) -> (r: Option<usize>)
    ensures
        match r {
            Some(i) => find_sub(h@, n@) == Some(i as int),
            None => find_sub(h@, n@) is None && !has_sub(h@, n@),
        },
{
    let mut i: usize = 0;
    loop
        invariant
            i <= h.len(),
            forall|j: int| 0 <= j < i ==> !occurs_at(h@, n@, j),
        ensures
            forall|j: int| 0 <= j <= h.len() ==> !occurs_at(h@, n@, j),
        decreases h.len() - i,
    {
        if matches_at(h, n, i) {
            assert(first_at(h@, n@, i as int));
            let ghost c = choose|k: int| first_at(h@, n@, k);
            assert(c == i) by {
                if c < i {
                } else if c > i {
                }
            }
            return Some(i);
        }
        if i == h.len() {
            break;
        }
        i += 1;
    }
    assert forall|j: int| !occurs_at(h@, n@, j) by {
        if 0 <= j <= h.len() {
        }
    }
    assert(!exists|k: int| first_at(h@, n@, k));
    None
}

/// Whether `n` occurs in `h`.
pub fn contains_chars(h: &[char], n: &[char]) -> (b: bool)
    ensures
        b == has_sub(h@, n@),
{
    match find_chars(h, n) {
        Some(i) => {
            assert(first_at(h@, n@, i as int));
            true
        },
        None => false,
    }
}

/// Whether the text `n` occurs in `h`.
pub fn contains_str(h: &[char], n: &str) -> (b: bool)
    ensures
        b == has_sub(h@, n@),
{
    let nv = chars_of(n);
    contains_chars(h, &nv)
}


// ---------------------------------------------------------------------------
// Numbers
// ---------------------------------------------------------------------------

/// The character of a decimal digit.
pub open spec fn digit_char(d: nat) -> char {
    (d + 48) as char
}

/// Decimal notation of `n` (what `Display` prints for an unsigned integer).
pub open spec fn dec(n: nat) -> Seq<char>
    decreases n,
{
    if n < 10 {
        seq![digit_char(n)]
    } else {
        dec(n / 10).push(digit_char(n % 10))
    }
}

fn digit(d: u64) -> (c: char)
    requires
        d < 10,
    ensures
        c == digit_char(d as nat),
{
    match d {
        0 => '0',
        1 => '1',
        2 => '2',
        3 => '3',
        4 => '4',
        5 => '5',
        6 => '6',
        7 => '7',
        8 => '8',
        _ => '9',
    }
}

/// Decimal notation of an unsigned integer.
pub fn decimal(n: u64) -> (r: Vec<char>)
    ensures
        r@ == dec(n as nat),
    decreases n,
{
    if n < 10 {
        let mut r: Vec<char> = Vec::new();
        r.push(digit(n));
        assert(r@ == seq![digit_char(n as nat)]);
        r
    } else {
        let mut r = decimal(n / 10);
        r.push(digit(n % 10));
        r
    }
}

/// An ASCII decimal digit.
pub open spec fn is_digit(c: char) -> bool {
    '0' <= c <= '9'
}

/// The value of an ASCII digit.
pub open spec fn digit_value(c: char) -> nat {
    (c as int - 48) as nat
}

/// The value of a sequence of decimal digits.
pub open spec fn digits_value(s: Seq<char>) -> nat
    decreases s.len(),
{
    if s.len() == 0 {
        0
    } else {
        digits_value(s.drop_last()) * 10 + digit_value(s.last())
    }
}

/// `s` is a nonempty sequence of decimal digits.
pub open spec fn all_digits(s: Seq<char>) -> bool {
    s.len() > 0 && forall|i: int| 0 <= i < s.len() ==> is_digit(#[trigger] s[i])
}

/// The digits of an unsigned number after an optional leading `+`.
pub open spec fn unsigned_digits(s: Seq<char>) -> Seq<char> {
    if s.len() > 0 && s[0] == '+' {
        s.drop_first()
    } else {
        s
    }
}

/// What std's `FromStr` gives for an unsigned integer type whose largest value
/// is `max`: an optional `+`, then one or more decimal digits whose value fits.
pub open spec fn parse_unsigned(s: Seq<char>, max: nat) -> Option<nat> {
    let d = unsigned_digits(s);
    if all_digits(d) && digits_value(d) <= max {
        Some(digits_value(d))
    } else {
        None
    }
}

proof fn lemma_digits_value_grows(s: Seq<char>, k: int)
    requires
        0 <= k <= s.len(),
    ensures
        digits_value(s.take(k)) <= digits_value(s),
    decreases s.len() - k,
{
    if k < s.len() {
        lemma_digits_value_grows(s, k + 1);
        assert(s.take(k + 1).drop_last() == s.take(k));
    } else {
        assert(s.take(k) == s);
    }
}

/// Parses an unsigned integer no larger than `max`.
pub fn parse_unsigned_chars(v: &[char], max: u64) -> (r: Option<u64>)
    ensures
        match r {
            Some(n) => parse_unsigned(v@, max as nat) == Some(n as nat),
            None => parse_unsigned(v@, max as nat) is None,
        },
{
    let start: usize = if v.len() > 0 && v[0] == '+' {
        1
    } else {
        0
    };
    let ghost d = unsigned_digits(v@);
    assert(d == v@.skip(start as int));
    if start >= v.len() {
        return None;
    }
    let mut acc: u128 = 0;
    let mut i = start;
    while i < v.len()
        invariant
            start <= i <= v.len(),
            d == v@.skip(start as int),
            d == unsigned_digits(v@),
            acc == digits_value(d.take(i - start)),
            acc <= max,
            forall|k: int| start <= k < i ==> is_digit(#[trigger] v@[k]),
        decreases v.len() - i,
    {
        let c = v[i];
        if !('0' <= c && c <= '9') {
            assert(d[i - start] == c);
            assert(!is_digit(d[i - start]));
            assert(!all_digits(d));
            return None;
        }
        assert(d.take(i - start + 1).drop_last() == d.take(i - start));
        assert(d.take(i - start + 1).last() == c);
        acc = acc * 10 + (c as u128 - 48);
        if acc > max as u128 {
            proof {
                lemma_digits_value_grows(d, i - start + 1);
                assert(digits_value(d) > max);
            }
            return None;
        }
        i += 1;
    }
    assert(d.take(i - start) == d);
    assert forall|k: int| 0 <= k < d.len() implies is_digit(#[trigger] d[k]) by {
        assert(d[k] == v@[k + start]);
    }
    Some(acc as u64)
}

/// `n / d` rounded to the nearest integer, ties to even (how std formats an
/// exactly representable value to a given number of decimals).
#[verifier::opaque]
pub open spec fn round_even(n: nat, d: nat) -> nat
    recommends
        d > 0,
{
    let q = n / d;
    let r = n % d;
    if 2 * r > d || (2 * r == d && q % 2 == 1) {
        q + 1
    } else {
        q
    }
}

/// `n / d` rounded, ties to even.
pub fn round_div(n: u128, d: u128) -> (r: u128)
    requires
        d > 0,
        n < u128::MAX,
    ensures
        r == round_even(n as nat, d as nat),
        r <= n / d + 1,
        d == 1 ==> r == n,
{
    reveal(round_even);
    let q = n / d;
    let rem = n % d;
    if rem > d - rem || (rem == d - rem && q % 2 == 1) {
        assert(q < u128::MAX) by (nonlinear_arith)
            requires
                q == n / d,
                d > 0,
                n < u128::MAX,
        ;
        q + 1
    } else {
        q
    }
}

/// `n / d` printed with one decimal, as `{:.1}` prints it.
#[verifier::opaque]
pub open spec fn fixed1(n: nat, d: nat) -> Seq<char> {
    let t = round_even(n * 10, d);
    dec(t / 10) + seq!['.'] + dec(t % 10)
}

/// `n / d` printed with no decimals, as `{:.0}` prints it.
#[verifier::opaque]
pub open spec fn fixed0(n: nat, d: nat) -> Seq<char> {
    dec(round_even(n, d))
}

/// `n / d` with one decimal.
pub fn fixed1_chars(n: u64, d: u64) -> (r: Vec<char>)
    requires
        d > 0,
    ensures
        r@ == fixed1(n as nat, d as nat),
{
    reveal(fixed1);
    let t = round_div(n as u128 * 10, d as u128);
    assert(t / 10 <= u64::MAX) by (nonlinear_arith)
        requires
            t <= (n as int * 10) / (d as int) + 1,
            d > 0,
            n <= u64::MAX,
    ;
    let mut r = decimal((t / 10) as u64);
    r.push('.');
    let tail = decimal((t % 10) as u64);
    append_chars(&mut r, &tail);
    r
}

/// `n / d` with no decimals.
pub fn fixed0_chars(n: u64, d: u64) -> (r: Vec<char>)
    requires
        d > 0,
    ensures
        r@ == fixed0(n as nat, d as nat),
{
    reveal(fixed0);
    let t = round_div(n as u128, d as u128);
    assert(t <= u64::MAX) by (nonlinear_arith)
        requires
            t <= (n as int) / (d as int) + 1,
            d == 1 ==> t == n,
            d > 0,
            n <= u64::MAX,
    ;
    decimal(t as u64)
}

// ---------------------------------------------------------------------------
// Padding
// ---------------------------------------------------------------------------

/// `k` spaces.
pub open spec fn spaces(k: nat) -> Seq<char> {
    Seq::new(k, |_i: int| ' ')
}

/// `s` right-aligned in a field of `w` characters (`{:>w}`).
#[verifier::opaque]
pub open spec fn pad_left(s: Seq<char>, w: nat) -> Seq<char> {
    if s.len() < w {
        spaces((w - s.len()) as nat) + s
    } else {
        s
    }
}

/// `s` left-aligned in a field of `w` characters (`{:<w}`).
#[verifier::opaque]
pub open spec fn pad_right(s: Seq<char>, w: nat) -> Seq<char> {
    if s.len() < w {
        s + spaces((w - s.len()) as nat)
    } else {
        s
    }
}

fn push_spaces(r: &mut Vec<char>, k: usize)
    ensures
        final(r)@ == old(r)@ + spaces(k as nat),
{
    let mut i: usize = 0;
    while i < k
        invariant
            i <= k,
            r@ == old(r)@ + spaces(i as nat),
        decreases k - i,
    {
        r.push(' ');
        assert(spaces((i + 1) as nat) == spaces(i as nat).push(' '));
        i += 1;
    }
}

/// Appends `s` right-aligned in a field of `w` characters.
pub fn push_padded_left(r: &mut Vec<char>, s: &[char], w: usize)
    ensures
        final(r)@ == old(r)@ + pad_left(s@, w as nat),
{
    reveal(pad_left);
    if s.len() < w {
        push_spaces(r, w - s.len());
    }
    append_chars(r, s);
    assert(old(r)@ + pad_left(s@, w as nat) == if s.len() < w {
        old(r)@ + spaces((w - s.len()) as nat) + s@
    } else {
        old(r)@ + s@
    });
}

/// Appends `s` left-aligned in a field of `w` characters.
pub fn push_padded_right(r: &mut Vec<char>, s: &[char], w: usize)
    ensures
        final(r)@ == old(r)@ + pad_right(s@, w as nat),
{
    reveal(pad_right);
    append_chars(r, s);
    if s.len() < w {
        push_spaces(r, w - s.len());
    }
    assert(old(r)@ + pad_right(s@, w as nat) == if s.len() < w {
        old(r)@ + s@ + spaces((w - s.len()) as nat)
    } else {
        old(r)@ + s@
    });
}


// ---------------------------------------------------------------------------
// Joining
// ---------------------------------------------------------------------------

/// The characters of a text literal.
pub fn lit(s: &str) -> (r: Vec<char>)
    ensures
        r@ == s@,
{
    chars_of(s)
}

/// `parts` joined with `sep` between neighbours (std's `join`).
pub open spec fn join(parts: Seq<Seq<char>>, sep: Seq<char>) -> Seq<char>
    decreases parts.len(),
{
    if parts.len() == 0 {
        seq![]
    } else if parts.len() == 1 {
        parts[0]
    } else {
        join(parts.drop_last(), sep) + sep + parts.last()
    }
}

/// The views of a vector of character vectors.
pub open spec fn char_seqs(v: Seq<Vec<char>>) -> Seq<Seq<char>> {
    v.map_values(|x: Vec<char>| x@)
}

/// `parts` joined with `sep`.
pub fn join_chars(parts: &Vec<Vec<char>>, sep: &[char]) -> (r: Vec<char>)
    ensures
        r@ == join(char_seqs(parts@), sep@),
{
    let ghost ps = char_seqs(parts@);
    let mut r: Vec<char> = Vec::new();
    let mut i: usize = 0;
    while i < parts.len()
        invariant
            i <= parts.len(),
            ps == char_seqs(parts@),
            r@ == join(ps.take(i as int), sep@),
        decreases parts.len() - i,
    {
        assert(ps.take(i + 1).drop_last() == ps.take(i as int));
        assert(ps[i as int] == parts@[i as int]@);
        if i > 0 {
            append_chars(&mut r, sep);
        } else {
            assert(join(ps.take(0), sep@) == Seq::<char>::empty());
            assert(r@ + parts@[0]@ == parts@[0]@);
        }
        append_chars(&mut r, &parts[i]);
        i += 1;
    }
    assert(ps.take(parts.len() as int) == ps);
    r
}


// ---------------------------------------------------------------------------
// Powers of ten and digit values
// ---------------------------------------------------------------------------

/// Ten to the power `n`.
pub open spec fn pow10(n: nat) -> nat
    decreases n,
{
    if n == 0 {
        1
    } else {
        10 * pow10((n - 1) as nat)
    }
}

pub proof fn lemma_pow10_add(a: nat, b: nat)
    ensures
        pow10(a + b) == pow10(a) * pow10(b),
        pow10(a) >= 1,
    decreases b,
{
    if b > 0 {
        let b1 = (b - 1) as nat;
        lemma_pow10_add(a, b1);
        assert(a + b1 + 1 == a + b);
        assert(pow10(a + b) == 10 * pow10(a + b1));
        assert(pow10(b) == 10 * pow10(b1));
        let x = pow10(a);
        let y = pow10(b1);
        assert(x * (10 * y) == 10 * (x * y)) by (nonlinear_arith);
    } else {
        assert(pow10(0) == 1);
        assert(a + b == a);
    }
    lemma_pow10_pos(a);
}

pub proof fn lemma_pow10_pos(a: nat)
    ensures
        pow10(a) >= 1,
    decreases a,
{
    if a > 0 {
        lemma_pow10_pos((a - 1) as nat);
    }
}

pub proof fn lemma_pow10_mono(a: nat, b: nat)
    requires
        a <= b,
    ensures
        pow10(a) <= pow10(b),
    decreases b,
{
    if a < b {
        lemma_pow10_mono(a, (b - 1) as nat);
        lemma_pow10_pos((b - 1) as nat);
    }
}

/// Every character of `s` is an ASCII digit (possibly none).
pub open spec fn digits_only(s: Seq<char>) -> bool {
    forall|i: int| 0 <= i < s.len() ==> is_digit(#[trigger] s[i])
}

pub proof fn lemma_digits_concat(x: Seq<char>, y: Seq<char>)
    ensures
        digits_value(x + y) == digits_value(x) * pow10(y.len()) + digits_value(y),
    decreases y.len(),
{
    if y.len() == 0 {
        assert(x + y == x);
        assert(pow10(0) == 1);
        assert(digits_value(y) == 0);
    } else {
        lemma_digits_concat(x, y.drop_last());
        assert((x + y).drop_last() == x + y.drop_last());
        assert((x + y).last() == y.last());
        let p = pow10((y.len() - 1) as nat);
        assert(pow10(y.len()) == 10 * p);
        let a = digits_value(x);
        let c = digits_value(y.drop_last());
        assert((a * p + c) * 10 == a * (10 * p) + c * 10) by (nonlinear_arith);
        assert(digits_value(x + y) == digits_value((x + y).drop_last()) * 10 + digit_value((x + y).last()));
        assert(digits_value(y) == c * 10 + digit_value(y.last()));
    }
}

pub proof fn lemma_digits_bound(x: Seq<char>)
    requires
        digits_only(x),
    ensures
        digits_value(x) < pow10(x.len()),
    decreases x.len(),
{
    if x.len() > 0 {
        lemma_digits_bound(x.drop_last());
        assert(is_digit(x.last()));
        let v = digits_value(x.drop_last());
        let p = pow10((x.len() - 1) as nat);
        assert(v + 1 <= p);
        assert(v * 10 + 9 < 10 * p) by (nonlinear_arith)
            requires
                v + 1 <= p,
        ;
    }
}

pub proof fn lemma_digits_lead(x: Seq<char>)
    requires
        digits_only(x),
        x.len() > 0,
        x[0] != '0',
    ensures
        digits_value(x) >= pow10((x.len() - 1) as nat),
{
    let head = x.take(1);
    let tail = x.skip(1);
    assert(x == head + tail);
    lemma_digits_concat(head, tail);
    assert(head.drop_last().len() == 0);
    assert(digits_value(head.drop_last()) == 0);
    assert(head.last() == x[0]);
    assert(digits_value(head) == digit_value(x[0]));
    assert(digit_value(x[0]) >= 1);
    lemma_pow10_pos(tail.len());
    assert(digit_value(x[0]) * pow10(tail.len()) >= pow10(tail.len())) by (nonlinear_arith)
        requires
            digit_value(x[0]) >= 1,
    ;
}

pub proof fn lemma_digits_zero(x: Seq<char>)
    requires
        digits_only(x),
    ensures
        digits_value(x) == 0 <==> forall|i: int| 0 <= i < x.len() ==> #[trigger] x[i] == '0',
    decreases x.len(),
{
    if x.len() > 0 {
        lemma_digits_zero(x.drop_last());
        let v = digits_value(x.drop_last());
        if digits_value(x) == 0 {
            assert(v * 10 + digit_value(x.last()) == 0);
            assert(v == 0);
            assert forall|i: int| 0 <= i < x.len() implies #[trigger] x[i] == '0' by {
                if i < x.len() - 1 {
                    assert(x[i] == x.drop_last()[i]);
                }
            }
        } else {
            if forall|i: int| 0 <= i < x.len() ==> #[trigger] x[i] == '0' {
                assert forall|i: int| 0 <= i < x.drop_last().len() implies #[trigger] x.drop_last()[i] == '0' by {
                    assert(x.drop_last()[i] == x[i]);
                }
                assert(x[x.len() - 1] == '0');
            }
        }
    }
}

} // verus!
