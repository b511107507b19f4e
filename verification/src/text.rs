//! Text as sequences of characters: white space, trimming, words and
//! decimal digits.

use vstd::prelude::*;
use vstd::string::StrSliceExecFns;

verus! {

/// White space in the sense of Unicode's property `White_Space`.
pub open spec fn is_space(c: char) -> bool {
    let u = c as u32;
    (0x09 <= u <= 0x0D) || u == 0x20 || u == 0x85 || u == 0xA0 || u == 0x1680 || (0x2000 <= u
        <= 0x200A) || u == 0x2028 || u == 0x2029 || u == 0x202F || u == 0x205F || u == 0x3000
}

/// `s` without the white space at its start.
pub open spec fn trim_start(s: Seq<char>) -> Seq<char>
    decreases s.len(),
{
    if s.len() > 0 && is_space(s[0]) {
        trim_start(s.drop_first())
    } else {
        s
    }
}

/// `s` without the white space at its end.
pub open spec fn trim_end(s: Seq<char>) -> Seq<char>
    decreases s.len(),
{
    if s.len() > 0 && is_space(s.last()) {
        trim_end(s.drop_last())
    } else {
        s
    }
}

/// `s` without the white space at either end.
pub open spec fn trimmed(s: Seq<char>) -> Seq<char> {
    trim_end(trim_start(s))
}

/// The length of the run of characters other than white space at the start
/// of `s`.
pub open spec fn word_len(s: Seq<char>) -> nat
    decreases s.len(),
{
    if s.len() > 0 && !is_space(s[0]) {
        1 + word_len(s.drop_first())
    } else {
        0
    }
}

/// The words of `s`: its maximal runs of characters other than white space,
/// in order.
pub open spec fn words(s: Seq<char>) -> Seq<Seq<char>>
    decreases s.len(),
{
    if s.len() == 0 {
        Seq::empty()
    } else if is_space(s[0]) {
        words(s.drop_first())
    } else {
        proof {
            lemma_word_len_bound(s);
        }
        seq![s.take(word_len(s) as int)] + words(s.skip(word_len(s) as int))
    }
}

/// A decimal digit of ASCII.
pub open spec fn is_digit(c: char) -> bool {
    '0' <= c <= '9'
}

/// The value of a decimal digit.
pub open spec fn digit_value(c: char) -> nat {
    (c as u32 - '0' as u32) as nat
}

/// Every character of `s` is a decimal digit.
pub open spec fn all_digits(s: Seq<char>) -> bool {
    forall|i: int| 0 <= i < s.len() ==> is_digit(#[trigger] s[i])
}

/// The number that the first `k` digits of `s` spell, a zero standing for
/// each digit that `s` lacks.
pub open spec fn leading_value(s: Seq<char>, k: nat) -> nat
    decreases k,
{
    if k == 0 {
        0
    } else {
        leading_value(s, (k - 1) as nat) * 10 + if k - 1 < s.len() {
            digit_value(s[k - 1])
        } else {
            0
        }
    }
}

/// Ten to the power of `n`.
pub open spec fn pow10(n: nat) -> nat
    decreases n,
{
    if n == 0 {
        1
    } else {
        10 * pow10((n - 1) as nat)
    }
}

/// The number that the digits of `s` spell.
pub open spec fn digits_value(s: Seq<char>) -> nat {
    leading_value(s, s.len())
}

/// The first position at or behind `from` at which `s` holds `c`, or the
/// length of `s`.
pub open spec fn position_of(s: Seq<char>, c: char, from: int) -> int
    decreases s.len() - from,
{
    if from < 0 || from >= s.len() {
        s.len() as int
    } else if s[from] == c {
        from
    } else {
        position_of(s, c, from + 1)
    }
}

/// `pattern` stands in `s` at position `at`.
pub open spec fn occurs_at(s: Seq<char>, pattern: Seq<char>, at: int) -> bool {
    0 <= at && at + pattern.len() <= s.len() && s.subrange(at, at + pattern.len()) == pattern
}

/// The first position at or behind `from` at which `pattern` stands in
/// `s`, if it stands there at all.
pub open spec fn find_from(s: Seq<char>, pattern: Seq<char>, from: int) -> Option<int>
    decreases s.len() + 1 - from,
{
    if from < 0 || from + pattern.len() > s.len() {
        None
    } else if occurs_at(s, pattern, from) {
        Some(from)
    } else {
        find_from(s, pattern, from + 1)
    }
}

/// The first position at which `pattern` stands in `s`, if it stands
/// anywhere.
pub open spec fn find(s: Seq<char>, pattern: Seq<char>) -> Option<int> {
    find_from(s, pattern, 0)
}

/// White space at the start, up to the first character that is none, is
/// what trimming the start takes away.
pub proof fn lemma_trim_start_skip(s: Seq<char>, i: int)
    requires
        0 <= i <= s.len(),
        forall|k: int| 0 <= k < i ==> is_space(#[trigger] s[k]),
        i < s.len() ==> !is_space(s[i]),
    ensures
        trim_start(s) == s.skip(i),
    decreases i,
{
    if i == 0 {
        assert(s.skip(0) =~= s);
    } else {
        let t = s.drop_first();
        assert forall|k: int| 0 <= k < i - 1 implies is_space(#[trigger] t[k]) by {
            assert(t[k] == s[k + 1]);
        }
        lemma_trim_start_skip(t, i - 1);
        assert(t.skip(i - 1) =~= s.skip(i));
    }
}

/// White space at the end, back to the last character that is none, is
/// what trimming the end takes away.
pub proof fn lemma_trim_end_take(s: Seq<char>, j: int)
    requires
        0 <= j <= s.len(),
        forall|k: int| j <= k < s.len() ==> is_space(#[trigger] s[k]),
        j > 0 ==> !is_space(s[j - 1]),
    ensures
        trim_end(s) == s.take(j),
    decreases s.len() - j,
{
    if j == s.len() {
        assert(s.take(j) =~= s);
    } else {
        let t = s.drop_last();
        lemma_trim_end_take(t, j);
        assert(t.take(j) =~= s.take(j));
    }
}

/// A word is no longer than the text that it starts.
pub proof fn lemma_word_len_bound(s: Seq<char>)
    ensures
        word_len(s) <= s.len(),
    decreases s.len(),
{
    if s.len() > 0 && !is_space(s[0]) {
        lemma_word_len_bound(s.drop_first());
    }
}

/// White space before the first word does not count.
pub proof fn lemma_words_skip_space(s: Seq<char>, i: int)
    requires
        0 <= i <= s.len(),
        forall|k: int| 0 <= k < i ==> is_space(#[trigger] s[k]),
    ensures
        words(s) == words(s.skip(i)),
    decreases i,
{
    if i == 0 {
        assert(s.skip(0) =~= s);
    } else {
        let t = s.drop_first();
        assert forall|k: int| 0 <= k < i - 1 implies is_space(#[trigger] t[k]) by {
            assert(t[k] == s[k + 1]);
        }
        lemma_words_skip_space(t, i - 1);
        assert(t.skip(i - 1) =~= s.skip(i));
    }
}

/// Two words with a blank between them are these two words.
pub proof fn lemma_words_of_pair(first: Seq<char>, second: Seq<char>)
    requires
        first.len() > 0,
        second.len() > 0,
        forall|i: int| 0 <= i < first.len() ==> !is_space(#[trigger] first[i]),
        forall|i: int| 0 <= i < second.len() ==> !is_space(#[trigger] second[i]),
    ensures
        words(first + seq![' '] + second) == seq![first, second],
{
    let s = first + seq![' '] + second;
    let n = first.len() as int;
    assert(is_space(' '));
    assert forall|k: int| 0 <= k < n implies !is_space(#[trigger] s[k]) by {
        assert(s[k] == first[k]);
    }
    assert(s[n] == ' ');
    lemma_word_len(s, n);
    assert(s[0] == first[0]);
    assert(s.take(n) =~= first);
    let t = s.skip(n);
    assert(t =~= seq![' '] + second);
    assert(t.drop_first() =~= second);
    assert(words(t) == words(second));
    lemma_word_len(second, second.len() as int);
    assert(second.take(second.len() as int) =~= second);
    assert(second.skip(second.len() as int) =~= Seq::<char>::empty());
    assert(words(Seq::<char>::empty()) =~= Seq::<Seq<char>>::empty());
    assert(words(second) =~= seq![second]);
    assert(words(s) =~= seq![first, second]);
}

/// A run without white space that white space or the end follows is the
/// first word.
pub proof fn lemma_word_len(s: Seq<char>, n: int)
    requires
        0 <= n <= s.len(),
        forall|k: int| 0 <= k < n ==> !is_space(#[trigger] s[k]),
        n < s.len() ==> is_space(s[n]),
    ensures
        word_len(s) == n,
    decreases n,
{
    if n > 0 {
        let t = s.drop_first();
        assert forall|k: int| 0 <= k < n - 1 implies !is_space(#[trigger] t[k]) by {
            assert(t[k] == s[k + 1]);
        }
        lemma_word_len(t, n - 1);
    }
}

/// The value of more digits is no less.
pub proof fn lemma_leading_value_grows(s: Seq<char>, j: nat, k: nat)
    requires
        j <= k,
    ensures
        leading_value(s, j) <= leading_value(s, k),
    decreases k,
{
    if j < k {
        lemma_leading_value_grows(s, j, (k - 1) as nat);
    }
}

/// The first `k` digits spell a number below ten to the power of `k`.
pub proof fn lemma_leading_value_bound(s: Seq<char>, k: nat)
    requires
        all_digits(s),
    ensures
        leading_value(s, k) < pow10(k),
    decreases k,
{
    if k > 0 {
        lemma_leading_value_bound(s, (k - 1) as nat);
        if k - 1 < s.len() {
            assert(is_digit(s[k - 1]));
        }
    }
}

/// No digits spell nothing.
pub proof fn lemma_no_digits_no_value(k: nat)
    ensures
        leading_value(Seq::<char>::empty(), k) == 0,
    decreases k,
{
    if k > 0 {
        lemma_no_digits_no_value((k - 1) as nat);
    }
}

/// A higher power of ten is no less.
pub proof fn lemma_pow10_grows(j: nat, k: nat)
    requires
        j <= k,
    ensures
        pow10(j) <= pow10(k),
    decreases k,
{
    if j < k {
        lemma_pow10_grows(j, (k - 1) as nat);
    }
}

/// The powers of ten that the coordinates need.
pub proof fn lemma_pow10_18()
    ensures
        pow10(12) == 1_000_000_000_000,
        pow10(14) == 100_000_000_000_000,
        pow10(18) == 1_000_000_000_000_000_000,
{
    reveal_with_fuel(pow10, 20);
}

/// Is `c` white space?
pub fn is_whitespace(c: char) -> (r: bool)
    ensures
        r == is_space(c),
{
    let u: u32 = c as u32;
    (0x09 <= u && u <= 0x0D) || u == 0x20 || u == 0x85 || u == 0xA0 || u == 0x1680 || (0x2000 <= u
        && u <= 0x200A) || u == 0x2028 || u == 0x2029 || u == 0x202F || u == 0x205F || u == 0x3000
}

/// The characters of `s`, one by one.
pub fn to_chars(s: &str) -> (v: Vec<char>)
    ensures
        v@ == s@,
{
    let mut v: Vec<char> = Vec::new();
    for c in it: s.chars()
        invariant
            it.seq() == s@,
            v@ == s@.take(it.index() as int),
    {
        v.push(c);
        assert(s@.take(it.index() + 1) =~= s@.take(it.index() as int).push(c));
    }
    assert(s@.take(s@.len() as int) =~= s@);
    v
}

/// Do two byte slices hold the same bytes?
pub fn bytes_eq(a: &[u8], b: &[u8]) -> (r: bool)
    ensures
        r == (a@ == b@),
{
    if a.len() != b.len() {
        return false;
    }
    let mut i: usize = 0;
    while i < a.len()
        invariant
            a.len() == b.len(),
            i <= a.len(),
            forall|k: int| 0 <= k < i ==> a[k] == b[k],
        decreases a.len() - i,
    {
        if a[i] != b[i] {
            return false;
        }
        i += 1;
    }
    assert(a@ =~= b@);
    true
}

/// Do two texts hold the same characters?
pub fn str_eq(a: &str, b: &str) -> (r: bool)
    ensures
        r == (a@ == b@),
{
    let r = bytes_eq(a.as_bytes(), b.as_bytes());
    proof {
        vstd::utf8::encode_utf8_decode_utf8(a@);
        vstd::utf8::encode_utf8_decode_utf8(b@);
    }
    r
}

/// The bounds of `chars` without the white space at either end.
pub fn trim_bounds(chars: &Vec<char>) -> (r: (usize, usize))
    ensures
        r.0 <= r.1 <= chars.len(),
        trimmed(chars@) == chars@.subrange(r.0 as int, r.1 as int),
{
    let n = chars.len();
    let mut i: usize = 0;
    while i < n && is_whitespace(chars[i])
        invariant
            n == chars.len(),
            i <= n,
            forall|k: int| 0 <= k < i ==> is_space(#[trigger] chars[k]),
        decreases n - i,
    {
        i += 1;
    }
    let mut j: usize = n;
    while j > i && is_whitespace(chars[j - 1])
        invariant
            n == chars.len(),
            i <= j <= n,
            forall|k: int| j <= k < n ==> is_space(#[trigger] chars[k]),
        decreases j,
    {
        j -= 1;
    }
    proof {
        lemma_trim_start_skip(chars@, i as int);
        let t = chars@.skip(i as int);
        assert forall|k: int| j - i <= k < t.len() implies is_space(#[trigger] t[k]) by {
            assert(t[k] == chars@[k + i]);
        }
        lemma_trim_end_take(t, j - i);
        assert(t.take(j - i) =~= chars@.subrange(i as int, j as int));
    }
    (i, j)
}

/// `s` without the white space at either end.
pub fn trim<'a>(s: &'a str) -> (r: &'a str)
    ensures
        r@ == trimmed(s@),
{
    let chars = to_chars(s);
    let (i, j) = trim_bounds(&chars);
    s.substring_char(i, j)
}

/// The words of `s`, in order.
pub fn split_whitespace<'a>(s: &'a str) -> (r: Vec<&'a str>)
    ensures
        r.len() == words(s@).len(),
        forall|k: int| 0 <= k < r.len() ==> (#[trigger] r[k])@ == words(s@)[k],
{
    let chars = to_chars(s);
    let n = chars.len();
    let mut out: Vec<&'a str> = Vec::new();
    let mut i: usize = 0;
    assert(s@.skip(0) =~= s@);
    loop
        invariant
            n == chars.len(),
            chars@ == s@,
            i <= n,
            words(s@) =~= Seq::new(out.len() as nat, |k: int| out[k]@) + words(s@.skip(i as int)),
        ensures
            out.len() == words(s@).len(),
            forall|k: int| 0 <= k < out.len() ==> (#[trigger] out[k])@ == words(s@)[k],
        decreases n - i,
    {
        let ghost start = i;
        let ghost rest = s@.skip(i as int);
        let mut a: usize = i;
        while a < n && is_whitespace(chars[a])
            invariant
                n == chars.len(),
                chars@ == s@,
                i <= a <= n,
                forall|k: int| i <= k < a ==> is_space(#[trigger] chars[k]),
            decreases n - a,
        {
            a += 1;
        }
        proof {
            assert forall|k: int| 0 <= k < a - i implies is_space(#[trigger] rest[k]) by {
                assert(rest[k] == chars[k + i]);
            }
            lemma_words_skip_space(rest, a - i);
            assert(rest.skip(a - i) =~= s@.skip(a as int));
        }
        if a >= n {
            proof {
                assert(words(s@.skip(a as int)) =~= Seq::<Seq<char>>::empty());
            }
            break;
        }
        let mut b: usize = a;
        while b < n && !is_whitespace(chars[b])
            invariant
                n == chars.len(),
                chars@ == s@,
                a <= b <= n,
                forall|k: int| a <= k < b ==> !is_space(#[trigger] chars[k]),
            decreases n - b,
        {
            b += 1;
        }
        let word = s.substring_char(a, b);
        proof {
            let t = s@.skip(a as int);
            assert forall|k: int| 0 <= k < b - a implies !is_space(#[trigger] t[k]) by {
                assert(t[k] == chars[k + a]);
            }
            lemma_word_len(t, b - a);
            assert(t.take(b - a) =~= s@.subrange(a as int, b as int));
            assert(t.skip(b - a) =~= s@.skip(b as int));
            assert(!is_space(t[0])) by {
                assert(t[0] == chars[a as int]);
            }
            assert(words(t) == seq![word@] + words(s@.skip(b as int)));
        }
        let ghost before = Seq::new(out.len() as nat, |k: int| out[k]@);
        out.push(word);
        proof {
            assert(Seq::new(out.len() as nat, |k: int| out[k]@) =~= before + seq![word@]);
        }
        i = b;
    }
    out
}

/// The first position at or behind `from` at which `chars` holds `c`, or
/// the length of `chars`.
pub fn find_char(chars: &Vec<char>, c: char, from: usize) -> (r: usize)
    requires
        from <= chars.len(),
    ensures
        r == position_of(chars@, c, from as int),
        from <= r <= chars.len(),
{
    let mut i: usize = from;
    while i < chars.len() && chars[i] != c
        invariant
            from <= i <= chars.len(),
            position_of(chars@, c, from as int) == position_of(chars@, c, i as int),
        decreases chars.len() - i,
    {
        i += 1;
    }
    i
}

/// The first position at which `pattern` stands in `chars`, if it stands
/// anywhere.
pub fn find_text(chars: &Vec<char>, pattern: &Vec<char>) -> (r: Option<usize>)
    ensures
        match r {
            Some(at) => find(chars@, pattern@) == Some(at as int),
            None => find(chars@, pattern@) is None,
        },
{
    let n = chars.len();
    let m = pattern.len();
    if m > n {
        return None;
    }
    let mut i: usize = 0;
    while i <= n - m
        invariant
            n == chars.len(),
            m == pattern.len(),
            m <= n,
            i <= n - m + 1,
            find(chars@, pattern@) == find_from(chars@, pattern@, i as int),
        decreases n - m + 1 - i,
    {
        let mut j: usize = 0;
        while j < m && chars[i + j] == pattern[j]
            invariant
                n == chars.len(),
                m == pattern.len(),
                i + m <= n,
                j <= m,
                forall|k: int| 0 <= k < j ==> chars[i + k] == pattern[k],
            decreases m - j,
        {
            j += 1;
        }
        if j == m {
            assert(chars@.subrange(i as int, i + m) =~= pattern@);
            return Some(i);
        }
        assert(chars@.subrange(i as int, i + m)[j as int] != pattern@[j as int]);
        i += 1;
    }
    None
}

/// The number that the digits of `chars` from `from` up to `to` spell, if
/// they are digits and the number is at most `cap`.
pub fn parse_digits(chars: &Vec<char>, from: usize, to: usize, cap: u64) -> (r: Option<u64>)
    requires
        from <= to <= chars.len(),
        cap <= 1_000_000_000_000_000_000,
    ensures
        r is Some <==> all_digits(chars@.subrange(from as int, to as int)) && digits_value(
            chars@.subrange(from as int, to as int),
        ) <= cap,
        r matches Some(v) ==> v == digits_value(chars@.subrange(from as int, to as int)),
{
    let ghost part = chars@.subrange(from as int, to as int);
    let mut acc: u64 = 0;
    let mut i: usize = from;
    while i < to
        invariant
            from <= i <= to <= chars.len(),
            part == chars@.subrange(from as int, to as int),
            cap <= 1_000_000_000_000_000_000,
            acc == leading_value(part, (i - from) as nat),
            acc <= cap,
            forall|k: int| 0 <= k < i - from ==> is_digit(#[trigger] part[k]),
        decreases to - i,
    {
        let c = chars[i];
        if !(c >= '0' && c <= '9') {
            assert(!is_digit(part[i - from]));
            return None;
        }
        let d: u64 = (c as u32 - '0' as u32) as u64;
        acc = acc * 10 + d;
        assert(acc == leading_value(part, (i - from + 1) as nat));
        if acc > cap {
            proof {
                lemma_leading_value_grows(part, (i - from + 1) as nat, part.len());
            }
            return None;
        }
        i += 1;
    }
    Some(acc)
}

/// The number that the first `places` digits of `chars` from `from` up to
/// `to` spell, a zero standing for each digit that is not there; `None` if a
/// character in that range is no digit.
pub fn parse_fraction(chars: &Vec<char>, from: usize, to: usize, places: usize) -> (r: Option<u64>)
    requires
        from <= to <= chars.len(),
        places <= 18,
    ensures
        r is Some <==> all_digits(chars@.subrange(from as int, to as int)),
        r matches Some(v) ==> v == leading_value(
            chars@.subrange(from as int, to as int),
            places as nat,
        ),
{
    let ghost part = chars@.subrange(from as int, to as int);
    let mut k: usize = from;
    while k < to
        invariant
            from <= k <= to <= chars.len(),
            part == chars@.subrange(from as int, to as int),
            forall|m: int| 0 <= m < k - from ==> is_digit(#[trigger] part[m]),
        decreases to - k,
    {
        let c = chars[k];
        if !(c >= '0' && c <= '9') {
            assert(!is_digit(part[k - from]));
            return None;
        }
        k += 1;
    }
    let mut acc: u64 = 0;
    let mut i: usize = 0;
    while i < places
        invariant
            from <= to <= chars.len(),
            part == chars@.subrange(from as int, to as int),
            all_digits(part),
            i <= places <= 18,
            acc == leading_value(part, i as nat),
            acc < pow10(i as nat),
        decreases places - i,
    {
        let d: u64 = if i < to - from {
            let c = chars[from + i];
            assert(is_digit(part[i as int]));
            (c as u32 - '0' as u32) as u64
        } else {
            0
        };
        proof {
            lemma_pow10_grows((i + 1) as nat, 18);
            lemma_pow10_18();
        }
        acc = acc * 10 + d;
        i += 1;
    }
    Some(acc)
}

} // verus!
