//! Text as sequences of characters: searching, splitting, numbers.

#[allow(unused_imports)]
use vstd::utf8::{decode_utf8, valid_utf8};
use vstd::prelude::*;
use vstd::string::StringExecFns;

verus! {

/// `String::push` appends one character.
pub assume_specification[ String::push ](s: &mut String, c: char)
    ensures
        final(s)@ == old(s)@.push(c),
;

/// What `String::from_utf8_lossy` makes of bytes.
pub uninterp spec fn lossy_text(bytes: Seq<u8>) -> Seq<char>;

/// The lower case of a text by the tables of Unicode, as `str::to_lowercase`
/// has it.
pub uninterp spec fn unicode_lower(text: Seq<char>) -> Seq<char>;

/// `String::from_utf8_lossy`: bytes that are UTF-8 are decoded, others have
/// their faulty parts replaced.
#[verifier::external_body]
pub(crate) fn lossy(bytes: &[u8]) -> (s: String)
    ensures
        s@ == lossy_text(bytes@),
        valid_utf8(bytes@) ==> s@ == decode_utf8(bytes@),
{
    String::from_utf8_lossy(bytes).into_owned()
}

/// `str::to_lowercase`.
#[verifier::external_body]
pub(crate) fn to_lowercase(text: &str) -> (s: String)
    ensures
        s@ == unicode_lower(text@),
{
    text.to_lowercase()
}

pub fn to_chars(s: &str) -> (v: Vec<char>)
    ensures
        v@ == s@,
{
    let mut v: Vec<char> = Vec::new();
    for c in it: s.chars()
        invariant
            v@ == it.seq().take(it.index() as int),
            it.seq() == s@,
    {
        v.push(c);
        assert(it.seq().take(it.index() + 1) =~= it.seq().take(it.index() as int).push(c));
    }
    assert(s@.take(s@.len() as int) =~= s@);
    v
}

pub fn from_chars(v: &[char]) -> (s: String)
    ensures
        s@ == v@,
{
    let mut s = String::new();
    let mut i: usize = 0;
    while i < v.len()
        invariant
            i <= v@.len(),
            s@ == v@.take(i as int),
        decreases v@.len() - i,
    {
        s.push(v[i]);
        i = i + 1;
        assert(s@ =~= v@.take(i as int));
    }
    assert(v@.take(v@.len() as int) =~= v@);
    s
}

/// `a`, then `b`.
pub fn concat(a: &str, b: &str) -> (s: String)
    ensures
        s@ == a@ + b@,
{
    let mut s = a.to_owned();
    s.append(b);
    s
}

/// The lower case of an ASCII letter; any other character as it is.
pub open spec fn ascii_lower(c: char) -> char {
    if 'A' <= c && c <= 'Z' {
        ((c as u32 + 32) as u8) as char
    } else {
        c
    }
}

/// A text with its ASCII letters in lower case.
pub open spec fn ascii_lowered(t: Seq<char>) -> Seq<char> {
    t.map_values(|c: char| ascii_lower(c))
}

fn lower_char(c: char) -> (r: char)
    ensures
        r == ascii_lower(c),
{
    if 'A' <= c && c <= 'Z' {
        ((c as u32 + 32) as u8) as char
    } else {
        c
    }
}

pub fn to_ascii_lower(t: &[char]) -> (v: Vec<char>)
    ensures
        v@ == ascii_lowered(t@),
{
    let mut v: Vec<char> = Vec::new();
    let mut i: usize = 0;
    while i < t.len()
        invariant
            i <= t@.len(),
            v@ == ascii_lowered(t@.take(i as int)),
        decreases t@.len() - i,
    {
        v.push(lower_char(t[i]));
        i = i + 1;
        assert(v@ =~= ascii_lowered(t@.take(i as int)));
    }
    assert(t@.take(t@.len() as int) =~= t@);
    v
}

pub fn same_chars(a: &[char], b: &[char]) -> (r: bool)
    ensures
        r == (a@ == b@),
{
    if a.len() != b.len() {
        return false;
    }
    let mut i: usize = 0;
    while i < a.len()
        invariant
            i <= a@.len(),
            a@.len() == b@.len(),
            forall|j: int| 0 <= j < i ==> a@[j] == b@[j],
        decreases a@.len() - i,
    {
        if a[i] != b[i] {
            return false;
        }
        i = i + 1;
    }
    assert(a@ =~= b@);
    true
}

/// Whether two texts differ at most in the case of ASCII letters.
pub fn eq_ignore_ascii_case(a: &str, b: &str) -> (r: bool)
    ensures
        r == (ascii_lowered(a@) == ascii_lowered(b@)),
{
    let x = to_ascii_lower(to_chars(a).as_slice());
    let y = to_ascii_lower(to_chars(b).as_slice());
    same_chars(x.as_slice(), y.as_slice())
}

/// The characters that count as white space.
pub open spec fn is_space(c: char) -> bool {
    let n = c as u32;
    ||| 0x9 <= n <= 0xD
    ||| n == 0x20
    ||| n == 0x85
    ||| n == 0xA0
    ||| n == 0x1680
    ||| 0x2000 <= n <= 0x200A
    ||| n == 0x2028
    ||| n == 0x2029
    ||| n == 0x202F
    ||| n == 0x205F
    ||| n == 0x3000
}

fn white(c: char) -> (r: bool)
    ensures
        r == is_space(c),
{
    let n: u32 = c as u32;
    (0x9 <= n && n <= 0xD) || n == 0x20 || n == 0x85 || n == 0xA0 || n == 0x1680 || (0x2000 <= n && n
        <= 0x200A) || n == 0x2028 || n == 0x2029 || n == 0x202F || n == 0x205F || n == 0x3000
}

/// Length of the run at the front of `t` that is all white space, or all not.
pub open spec fn span(t: Seq<char>, space: bool) -> nat
    decreases t.len(),
{
    if t.len() > 0 && is_space(t[0]) == space {
        1 + span(t.drop_first(), space)
    } else {
        0
    }
}

pub proof fn lemma_span(t: Seq<char>, space: bool, n: nat)
    requires
        n <= t.len(),
        forall|i: int| 0 <= i < n ==> is_space(#[trigger] t[i]) == space,
        n == t.len() || is_space(t[n as int]) != space,
    ensures
        span(t, space) == n,
    decreases n,
{
    if n > 0 {
        lemma_span(t.drop_first(), space, (n - 1) as nat);
    }
}

/// Length of the run of characters from `from` on.
pub fn run_length(t: &[char], from: usize, space: bool) -> (n: usize)
    requires
        from <= t@.len(),
    ensures
        n == span(t@.skip(from as int), space),
        from + n <= t@.len(),
{
    let mut n: usize = 0;
    while n < t.len() - from && white(t[from + n]) == space
        invariant
            from + n <= t@.len(),
            forall|i: int| from <= i < from + n ==> is_space(#[trigger] t@[i]) == space,
        decreases t@.len() - from - n,
    {
        n = n + 1;
    }
    proof {
        lemma_span(t@.skip(from as int), space, n as nat);
    }
    n
}

/// `t` without the white space in front.
pub open spec fn trimmed_start(t: Seq<char>) -> Seq<char> {
    t.skip(span(t, true) as int)
}

/// `t` without the white space behind.
pub open spec fn trimmed_end(t: Seq<char>) -> Seq<char>
    decreases t.len(),
{
    if t.len() > 0 && is_space(t.last()) {
        trimmed_end(t.drop_last())
    } else {
        t
    }
}

/// `t` without white space at either end.
pub open spec fn trimmed(t: Seq<char>) -> Seq<char> {
    trimmed_end(trimmed_start(t))
}

/// The part `from..to` of a text as a text of its own.
pub fn part(t: &[char], from: usize, to: usize) -> (v: Vec<char>)
    requires
        from <= to <= t@.len(),
    ensures
        v@ == t@.subrange(from as int, to as int),
{
    let mut v: Vec<char> = Vec::new();
    let mut i: usize = from;
    while i < to
        invariant
            from <= i <= to,
            to <= t@.len(),
            v@ == t@.subrange(from as int, i as int),
        decreases to - i,
    {
        v.push(t[i]);
        i = i + 1;
        assert(v@ =~= t@.subrange(from as int, i as int));
    }
    v
}

pub fn trim(t: &[char]) -> (v: Vec<char>)
    ensures
        v@ == trimmed(t@),
{
    assert(t@.skip(0) =~= t@);
    let start: usize = run_length(t, 0, true);
    let mut end: usize = t.len();
    assert(t@.subrange(start as int, end as int) =~= trimmed_start(t@));
    while end > start && white(t[end - 1])
        invariant
            start <= end <= t@.len(),
            trimmed_end(t@.subrange(start as int, end as int)) == trimmed(t@),
        decreases end,
    {
        assert(t@.subrange(start as int, end as int).drop_last() =~= t@.subrange(
            start as int,
            end - 1,
        ));
        end = end - 1;
    }
    part(t, start, end)
}

/// The words of a text: what stands between white space.
pub open spec fn words(t: Seq<char>) -> Seq<Seq<char>>
    decreases t.len(),
{
    let rest = trimmed_start(t);
    let n = span(rest, false);
    if rest.len() == 0 || n == 0 || span(t, true) > t.len() || n > rest.len() {
        Seq::empty()
    } else {
        seq![rest.take(n as int)] + words(rest.skip(n as int))
    }
}

pub proof fn lemma_span_bound(t: Seq<char>, space: bool)
    ensures
        span(t, space) <= t.len(),
        span(t, space) < t.len() ==> is_space(t[span(t, space) as int]) != space,
    decreases t.len(),
{
    if t.len() > 0 && is_space(t[0]) == space {
        lemma_span_bound(t.drop_first(), space);
    }
}

/// The views of a list of texts.
pub open spec fn texts(v: Seq<Vec<char>>) -> Seq<Seq<char>> {
    v.map_values(|x: Vec<char>| x@)
}

pub open spec fn string_views(v: Seq<String>) -> Seq<Seq<char>> {
    v.map_values(|s: String| s@)
}

pub fn split_whitespace(t: &[char]) -> (v: Vec<Vec<char>>)
    ensures
        texts(v@) == words(t@),
{
    let mut v: Vec<Vec<char>> = Vec::new();
    let mut at: usize = 0;
    let len: usize = t.len();
    assert(t@.skip(0) =~= t@);
    assert(texts(v@) + words(t@) =~= words(t@));
    loop
        invariant
            at <= t@.len(),
            len == t@.len(),
            texts(v@) + words(t@.skip(at as int)) == words(t@),
        ensures
            texts(v@) == words(t@),
        decreases t@.len() - at,
    {
        let ghost rest = t@.skip(at as int);
        let start: usize = at + run_length(t, at, true);
        assert(t@.skip(start as int) =~= trimmed_start(rest));
        if start == len {
            assert(texts(v@) + Seq::<Seq<char>>::empty() =~= texts(v@));
            break;
        }
        proof {
            lemma_span_bound(rest, true);
            lemma_span_bound(t@.skip(start as int), false);
        }
        let n: usize = run_length(t, start, false);
        assert(n > 0);
        let word = part(t, start, start + n);
        assert(word@ =~= trimmed_start(rest).take(n as int));
        let ghost before = v@;
        v.push(word);
        assert(texts(v@) =~= texts(before).push(word@));
        assert(t@.skip(start + n) =~= trimmed_start(rest).skip(n as int));
        assert(texts(before) + (seq![word@] + words(t@.skip(start + n))) =~= texts(v@) + words(
            t@.skip(start + n),
        ));
        at = start + n;
    }
    v
}

/// Position of the first `c` in `t`, or the length of `t`.
pub open spec fn first_of(t: Seq<char>, c: char) -> nat
    decreases t.len(),
{
    if t.len() == 0 || t[0] == c {
        0
    } else {
        1 + first_of(t.drop_first(), c)
    }
}

pub proof fn lemma_first_of(t: Seq<char>, c: char, n: nat)
    requires
        n <= t.len(),
        forall|i: int| 0 <= i < n ==> #[trigger] t[i] != c,
        n == t.len() || t[n as int] == c,
    ensures
        first_of(t, c) == n,
    decreases n,
{
    if n > 0 {
        lemma_first_of(t.drop_first(), c, (n - 1) as nat);
    }
}

pub proof fn lemma_first_of_bound(t: Seq<char>, c: char)
    ensures
        first_of(t, c) <= t.len(),
        first_of(t, c) < t.len() ==> t[first_of(t, c) as int] == c,
        forall|i: int| 0 <= i < first_of(t, c) ==> #[trigger] t[i] != c,
    decreases t.len(),
{
    if t.len() > 0 && t[0] != c {
        lemma_first_of_bound(t.drop_first(), c);
        assert forall|i: int| 0 <= i < first_of(t, c) implies #[trigger] t[i] != c by {
            if i > 0 {
                assert(t.drop_first()[i - 1] == t[i]);
            }
        }
    }
}

/// How many characters from `from` on come before the first `c`.
pub fn distance(t: &[char], from: usize, c: char) -> (n: usize)
    requires
        from <= t@.len(),
    ensures
        n == first_of(t@.skip(from as int), c),
        from + n <= t@.len(),
        from + n < t@.len() ==> t@[from + n] == c,
{
    let mut n: usize = 0;
    while n < t.len() - from && t[from + n] != c
        invariant
            from + n <= t@.len(),
            forall|i: int| from <= i < from + n ==> #[trigger] t@[i] != c,
        decreases t@.len() - from - n,
    {
        n = n + 1;
    }
    proof {
        lemma_first_of(t@.skip(from as int), c, n as nat);
    }
    n
}

/// A line without the carriage return before its line feed.
pub open spec fn without_cr(t: Seq<char>) -> Seq<char> {
    if t.len() > 0 && t.last() == '\r' {
        t.drop_last()
    } else {
        t
    }
}

/// The lines of a text. They end in a line feed, with or without a carriage
/// return before it; the last one need not.
pub open spec fn lines_of(t: Seq<char>) -> Seq<Seq<char>>
    decreases t.len(),
{
    let n = first_of(t, '\n');
    if t.len() == 0 {
        Seq::empty()
    } else if n >= t.len() {
        seq![t]
    } else {
        seq![without_cr(t.take(n as int))] + lines_of(t.skip(n as int + 1))
    }
}

pub fn lines(t: &[char]) -> (v: Vec<Vec<char>>)
    ensures
        texts(v@) == lines_of(t@),
{
    let mut v: Vec<Vec<char>> = Vec::new();
    let mut at: usize = 0;
    assert(t@.skip(0) =~= t@);
    assert(texts(v@) + lines_of(t@) =~= lines_of(t@));
    while at < t.len()
        invariant
            at <= t@.len(),
            texts(v@) + lines_of(t@.skip(at as int)) == lines_of(t@),
        decreases t@.len() - at,
    {
        let ghost rest = t@.skip(at as int);
        let ghost before = v@;
        let n: usize = distance(t, at, '\n');
        if at + n == t.len() {
            let line = part(t, at, at + n);
            assert(line@ =~= rest);
            v.push(line);
            assert(texts(v@) =~= texts(before).push(line@));
            at = t.len();
            assert(t@.skip(at as int) =~= Seq::<char>::empty());
            assert(texts(before) + seq![rest] =~= texts(v@) + Seq::<Seq<char>>::empty());
        } else {
            let end: usize = if n > 0 && t[at + n - 1] == '\r' {
                at + n - 1
            } else {
                at + n
            };
            let line = part(t, at, end);
            assert(line@ =~= without_cr(rest.take(n as int)));
            v.push(line);
            assert(texts(v@) =~= texts(before).push(line@));
            at = at + n + 1;
            assert(t@.skip(at as int) =~= rest.skip(n + 1));
            assert(texts(before) + (seq![line@] + lines_of(t@.skip(at as int))) =~= texts(v@)
                + lines_of(t@.skip(at as int)));
        }
    }
    assert(t@.skip(at as int) =~= Seq::<char>::empty());
    assert(texts(v@) + Seq::<Seq<char>>::empty() =~= texts(v@));
    v
}

/// Whether `needle` stands in `hay` from position `i` on.
pub open spec fn occurs_at(hay: Seq<char>, needle: Seq<char>, i: int) -> bool {
    0 <= i && i + needle.len() <= hay.len() && hay.subrange(i, i + needle.len()) == needle
}

/// Whether `needle` stands anywhere in `hay`.
pub open spec fn occurs(hay: Seq<char>, needle: Seq<char>) -> bool {
    exists|i: int| occurs_at(hay, needle, i)
}

/// Whether `i` is the first position of `needle` in `hay`.
pub open spec fn first_occurrence(hay: Seq<char>, needle: Seq<char>, i: int) -> bool {
    occurs_at(hay, needle, i) && forall|j: int| 0 <= j < i ==> !occurs_at(hay, needle, j)
}

pub fn stands_at(hay: &[char], needle: &[char], i: usize) -> (r: bool)
    ensures
        r == occurs_at(hay@, needle@, i as int),
{
    let n: usize = hay.len();
    let m: usize = needle.len();
    if i > n || n - i < m {
        return false;
    }
    let mut k: usize = 0;
    while k < m
        invariant
            k <= m,
            m == needle@.len(),
            n == hay@.len(),
            i + m <= n,
            forall|j: int| 0 <= j < k ==> hay@[i + j] == #[trigger] needle@[j],
        decreases m - k,
    {
        if hay[i + k] != needle[k] {
            assert(hay@.subrange(i as int, i + m)[k as int] != needle@[k as int]);
            return false;
        }
        k = k + 1;
    }
    assert(hay@.subrange(i as int, i + m) =~= needle@);
    true
}

pub fn find(hay: &[char], needle: &[char]) -> (r: Option<usize>)
    ensures
        match r {
            Some(i) => first_occurrence(hay@, needle@, i as int) && i + needle@.len() <= hay@.len(),
            None => !occurs(hay@, needle@),
        },
{
    let n: usize = hay.len();
    let mut i: usize = 0;
    loop
        invariant
            n == hay@.len(),
            i <= n,
            forall|j: int| 0 <= j < i ==> !occurs_at(hay@, needle@, j),
        decreases n - i,
    {
        if stands_at(hay, needle, i) {
            return Some(i);
        }
        if i == n {
            return None;
        }
        i = i + 1;
    }
}

pub fn contains(hay: &[char], needle: &[char]) -> (r: bool)
    ensures
        r == occurs(hay@, needle@),
{
    find(hay, needle).is_some()
}

/// What follows the first `needle` in `hay`.
pub open spec fn after_first(hay: Seq<char>, needle: Seq<char>) -> Option<Seq<char>> {
    if occurs(hay, needle) {
        let i = choose|i: int| first_occurrence(hay, needle, i);
        Some(hay.skip(i + needle.len()))
    } else {
        None
    }
}

/// A text that occurs has a first occurrence, and only one.
pub proof fn lemma_first_occurrence(hay: Seq<char>, needle: Seq<char>, i: int)
    requires
        first_occurrence(hay, needle, i),
    ensures
        after_first(hay, needle) == Some(hay.skip(i + needle.len())),
{
    let k = choose|k: int| first_occurrence(hay, needle, k);
    assert(first_occurrence(hay, needle, k));
    if i < k {
        assert(!occurs_at(hay, needle, i));
    } else if k < i {
        assert(!occurs_at(hay, needle, k));
    }
}

pub fn find_after(hay: &[char], needle: &[char]) -> (r: Option<Vec<char>>)
    ensures
        match after_first(hay@, needle@) {
            Some(t) => r is Some && r->0@ == t,
            None => r is None,
        },
{
    match find(hay, needle) {
        None => None,
        Some(i) => {
            proof {
                lemma_first_occurrence(hay@, needle@, i as int);
            }
            let len: usize = hay.len();
            assert(hay@.subrange(i + needle@.len(), len as int) =~= hay@.skip(i + needle@.len()));
            Some(part(hay, i + needle.len(), len))
        },
    }
}

/// What follows `prefix` in `t`, where `t` starts with it.
pub open spec fn after_prefix(t: Seq<char>, prefix: Seq<char>) -> Option<Seq<char>> {
    if occurs_at(t, prefix, 0) {
        Some(t.skip(prefix.len() as int))
    } else {
        None
    }
}

pub fn strip_prefix(t: &[char], prefix: &[char]) -> (r: Option<Vec<char>>)
    ensures
        match after_prefix(t@, prefix@) {
            Some(rest) => r is Some && r->0@ == rest,
            None => r is None,
        },
{
    if stands_at(t, prefix, 0) {
        assert(t@.subrange(prefix@.len() as int, t@.len() as int) =~= t@.skip(prefix@.len() as int));
        Some(part(t, prefix.len(), t.len()))
    } else {
        None
    }
}

pub open spec fn is_digit(c: char) -> bool {
    '0' <= c && c <= '9'
}

/// Length of the run of digits at the front of `t`.
pub open spec fn digit_run(t: Seq<char>) -> nat
    decreases t.len(),
{
    if t.len() > 0 && is_digit(t[0]) {
        1 + digit_run(t.drop_first())
    } else {
        0
    }
}

/// Length of the run of digits from `from` on.
pub fn leading_digits(t: &[char], from: usize) -> (n: usize)
    requires
        from <= t@.len(),
    ensures
        n == digit_run(t@.skip(from as int)),
        from + n <= t@.len(),
{
    let mut n: usize = 0;
    let ghost rest = t@.skip(from as int);
    assert(rest.skip(0) =~= rest);
    while n < t.len() - from && '0' <= t[from + n] && t[from + n] <= '9'
        invariant
            from + n <= t@.len(),
            rest == t@.skip(from as int),
            digit_run(rest) == n + digit_run(rest.skip(n as int)),
        decreases t@.len() - from - n,
    {
        assert(rest.skip(n as int)[0] == t@[from + n]);
        assert(rest.skip(n as int).drop_first() =~= rest.skip(n + 1));
        n = n + 1;
    }
    if from + n < t.len() {
        assert(rest.skip(n as int)[0] == t@[from + n]);
    }
    n
}

/// The value of decimal digits.
pub open spec fn digits_value(t: Seq<char>) -> nat
    decreases t.len(),
{
    if t.len() == 0 {
        0
    } else {
        10 * digits_value(t.drop_last()) + (t.last() as u32 - '0' as u32) as nat
    }
}

/// The number that decimal digits write, where it is at most `max`.
pub open spec fn plain_number(d: Seq<char>, max: nat) -> Option<nat> {
    if d.len() > 0 && (forall|i: int| 0 <= i < d.len() ==> is_digit(#[trigger] d[i]))
        && digits_value(d) <= max {
        Some(digits_value(d))
    } else {
        None
    }
}

/// The number that a text writes in decimal digits, with or without a plus
/// sign, where it is at most `max`.
pub open spec fn number_of(t: Seq<char>, max: nat) -> Option<nat> {
    plain_number(
        if t.len() > 0 && t[0] == '+' {
            t.drop_first()
        } else {
            t
        },
        max,
    )
}

proof fn lemma_digits_grow(t: Seq<char>, n: int)
    requires
        0 <= n <= t.len(),
        forall|i: int| 0 <= i < t.len() ==> is_digit(#[trigger] t[i]),
    ensures
        digits_value(t.take(n)) <= digits_value(t),
    decreases t.len(),
{
    if n < t.len() {
        assert(t.drop_last().take(n) =~= t.take(n));
        lemma_digits_grow(t.drop_last(), n);
        assert(is_digit(t.last()));
    } else {
        assert(t.take(n) =~= t);
    }
}

pub fn parse_number(t: &[char], max: u64) -> (r: Option<u64>)
    ensures
        match number_of(t@, max as nat) {
            Some(n) => r is Some && r->0 == n,
            None => r is None,
        },
{
    let start: usize = if t.len() > 0 && t[0] == '+' {
        1
    } else {
        0
    };
    if start == t.len() {
        return None;
    }
    let ghost d = t@.skip(start as int);
    assert(d =~= if t@.len() > 0 && t@[0] == '+' {
        t@.drop_first()
    } else {
        t@
    });
    let mut acc: u64 = 0;
    let mut i: usize = start;
    while i < t.len()
        invariant
            start <= i <= t@.len(),
            start < t@.len(),
            d == t@.skip(start as int),
            number_of(t@, max as nat) == plain_number(d, max as nat),
            forall|k: int| 0 <= k < i - start ==> is_digit(#[trigger] d[k]),
            acc == digits_value(d.take(i - start)),
            acc <= max,
        decreases t@.len() - i,
    {
        let c: char = t[i];
        assert(d[i - start] == c);
        if c < '0' || c > '9' {
            assert(!is_digit(d[i - start]));
            return None;
        }
        let v: u64 = (c as u32 - '0' as u32) as u64;
        assert(d.take(i + 1 - start).drop_last() =~= d.take(i - start));
        assert(digits_value(d.take(i + 1 - start)) == 10 * acc + v);
        if v > max || acc > (max - v) / 10 {
            proof {
                assert(10 * acc + v > max);
                if forall|k: int| 0 <= k < d.len() ==> is_digit(#[trigger] d[k]) {
                    lemma_digits_grow(d, i + 1 - start);
                }
            }
            return None;
        }
        acc = acc * 10 + v;
        i = i + 1;
    }
    assert(d.take(d.len() as int) =~= d);
    Some(acc)
}

/// The decimal digits of a number.
pub open spec fn decimal(n: nat) -> Seq<char>
    decreases n,
{
    if n < 10 {
        seq![digit_char(n)]
    } else {
        decimal(n / 10).push(digit_char(n % 10))
    }
}

pub open spec fn digit_char(d: nat) -> char {
    ((48 + d) as u8) as char
}

fn digits(n: u64) -> (v: Vec<char>)
    ensures
        v@ == decimal(n as nat),
    decreases n,
{
    let last: char = ((48 + n % 10) as u8) as char;
    if n < 10 {
        let mut v: Vec<char> = Vec::new();
        v.push(last);
        assert(v@ =~= decimal(n as nat));
        v
    } else {
        let mut v = digits(n / 10);
        v.push(last);
        v
    }
}

/// Appends a number in decimal.
pub fn add_number(s: &mut String, n: u64)
    ensures
        final(s)@ == old(s)@ + decimal(n as nat),
{
    let t = decimal_text(n);
    s.append(t.as_str());
}

/// A number in decimal.
pub fn decimal_text(n: u64) -> (s: String)
    ensures
        s@ == decimal(n as nat),
{
    let v = digits(n);
    from_chars(v.as_slice())
}

/// Adds a line made of two parts to a list of lines.
pub fn push_line(out: &mut Vec<String>, front: &str, back: &str)
    ensures
        string_views(final(out)@) == string_views(old(out)@).push(front@ + back@),
{
    let ghost before = out@;
    let line = concat(front, back);
    out.push(line);
    assert(string_views(out@) =~= string_views(before).push(line@));
}

/// Adds a line to a list of lines.
pub fn push_text(out: &mut Vec<String>, text: &str)
    ensures
        string_views(final(out)@) == string_views(old(out)@).push(text@),
{
    let ghost before = out@;
    let line = text.to_owned();
    out.push(line);
    assert(string_views(out@) =~= string_views(before).push(line@));
}

/// Lower case by ASCII: the letters from `A` to `Z` move up by 32, and every
/// other character stays.
pub proof fn law_ascii_lower_case(t: Seq<char>, i: int)
    requires
        0 <= i < t.len(),
    ensures
        ascii_lowered(t).len() == t.len(),
        0x41 <= t[i] as u32 <= 0x5A ==> ascii_lowered(t)[i] as u32 == t[i] as u32 + 32,
        !(0x41 <= t[i] as u32 <= 0x5A) ==> ascii_lowered(t)[i] == t[i],
{
    let c = t[i];
    if 0x41 <= c as u32 <= 0x5A {
        let n = (c as u32 + 32) as u8;
        assert(n == c as u32 + 32);
        assert(ascii_lowered(t)[i] == n as char);
    }
}

/// The characters that count as white space.
pub proof fn law_white_space(c: char)
    ensures
        is_space(c) <==> {
            ||| '\t' <= c <= '\r'
            ||| c == ' '
            ||| c == '\u{85}'
            ||| c == '\u{a0}'
            ||| c == '\u{1680}'
            ||| '\u{2000}' <= c <= '\u{200a}'
            ||| c == '\u{2028}'
            ||| c == '\u{2029}'
            ||| c == '\u{202f}'
            ||| c == '\u{205f}'
            ||| c == '\u{3000}'
        },
{
}

proof fn lemma_spaces_in_front(a: Seq<char>, m: Seq<char>)
    requires
        forall|i: int| 0 <= i < a.len() ==> is_space(#[trigger] a[i]),
        m.len() == 0 || !is_space(m[0]),
    ensures
        trimmed_start(a + m) == m,
        span(a + m, true) == a.len(),
{
    let t = a + m;
    assert forall|i: int| 0 <= i < a.len() implies is_space(#[trigger] t[i]) == true by {
        assert(t[i] == a[i]);
    }
    lemma_span(t, true, a.len());
    assert(t.skip(a.len() as int) =~= m);
}

proof fn lemma_spaces_behind(m: Seq<char>, b: Seq<char>)
    requires
        forall|i: int| 0 <= i < b.len() ==> is_space(#[trigger] b[i]),
        m.len() == 0 || !is_space(m[m.len() - 1]),
    ensures
        trimmed_end(m + b) == m,
    decreases b.len(),
{
    if b.len() > 0 {
        assert(is_space(b[b.len() - 1]));
        assert((m + b).last() == b.last());
        assert((m + b).drop_last() =~= m + b.drop_last());
        assert forall|i: int| 0 <= i < b.drop_last().len() implies is_space(
            #[trigger] b.drop_last()[i],
        ) by {
            assert(b.drop_last()[i] == b[i]);
        }
        lemma_spaces_behind(m, b.drop_last());
    } else {
        assert(m + b =~= m);
    }
}

/// Trimming takes the white space off both ends and nothing else.
pub proof fn law_trimming(a: Seq<char>, m: Seq<char>, b: Seq<char>)
    requires
        forall|i: int| 0 <= i < a.len() ==> is_space(#[trigger] a[i]),
        forall|i: int| 0 <= i < b.len() ==> is_space(#[trigger] b[i]),
        m.len() > 0 ==> !is_space(m[0]) && !is_space(m[m.len() - 1]),
    ensures
        trimmed(a + m + b) == m,
{
    if m.len() > 0 {
        assert(a + m + b =~= a + (m + b));
        lemma_spaces_in_front(a, m + b);
        lemma_spaces_behind(m, b);
    } else {
        let all = a + m + b;
        assert forall|i: int| 0 <= i < all.len() implies is_space(#[trigger] all[i]) by {
            if i < a.len() {
                assert(all[i] == a[i]);
            } else {
                assert(all[i] == b[i - a.len()]);
            }
        }
        assert(all + m =~= all);
        lemma_spaces_in_front(all, m);
        lemma_spaces_behind(m, Seq::empty());
        assert(m + Seq::<char>::empty() =~= m);
    }
}

/// The words of a text are its runs of characters that are not white space:
/// `word` comes behind white space, and ends at white space or with the text.
pub proof fn law_words(space: Seq<char>, word: Seq<char>, rest: Seq<char>)
    requires
        forall|i: int| 0 <= i < space.len() ==> is_space(#[trigger] space[i]),
        forall|i: int| 0 <= i < word.len() ==> !is_space(#[trigger] word[i]),
        rest.len() == 0 || is_space(rest[0]),
    ensures
        words(space).len() == 0,
        word.len() > 0 ==> words(space + word + rest) == seq![word] + words(rest),
{
    assert(space + Seq::<char>::empty() =~= space);
    lemma_spaces_in_front(space, Seq::empty());
    if word.len() > 0 {
        let t = word + rest;
        assert(space + word + rest =~= space + t);
        assert(!is_space(word[0]));
        assert(t[0] == word[0]);
        lemma_spaces_in_front(space, t);
        assert forall|i: int| 0 <= i < word.len() implies is_space(#[trigger] t[i]) == false by {
            assert(t[i] == word[i]);
        }
        if rest.len() > 0 {
            assert(t[word.len() as int] == rest[0]);
        }
        lemma_span(t, false, word.len());
        assert(t.take(word.len() as int) =~= word);
        assert(t.skip(word.len() as int) =~= rest);
    }
}

/// The lines of a text end at each line feed, which is not part of them, and a
/// carriage return right before it is not either. What stands behind the last
/// line feed is a line where it is not empty.
pub proof fn law_lines(line: Seq<char>, rest: Seq<char>)
    requires
        forall|i: int| 0 <= i < line.len() ==> #[trigger] line[i] != '\n',
    ensures
        line.len() == 0 ==> lines_of(line).len() == 0,
        line.len() > 0 ==> lines_of(line) == seq![line],
        line.len() == 0 || line[line.len() - 1] != '\r' ==> lines_of(line + seq!['\n'] + rest)
            == seq![line] + lines_of(rest),
        lines_of(line + seq!['\r', '\n'] + rest) == seq![line] + lines_of(rest),
{
    lemma_first_of(line, '\n', line.len());
    if line.len() == 0 || line[line.len() - 1] != '\r' {
        lemma_line(line, rest);
    }
    let full = line.push('\r');
    assert forall|i: int| 0 <= i < full.len() implies #[trigger] full[i] != '\n' by {
        if i < line.len() {
            assert(full[i] == line[i]);
        }
    }
    lemma_line(full, rest);
    assert(full + seq!['\n'] + rest =~= line + seq!['\r', '\n'] + rest);
    assert(full.drop_last() =~= line);
}

proof fn lemma_line(line: Seq<char>, rest: Seq<char>)
    requires
        forall|i: int| 0 <= i < line.len() ==> #[trigger] line[i] != '\n',
    ensures
        lines_of(line + seq!['\n'] + rest) == seq![without_cr(line)] + lines_of(rest),
{
    let t = line + seq!['\n'] + rest;
    assert forall|i: int| 0 <= i < line.len() implies #[trigger] t[i] != '\n' by {
        assert(t[i] == line[i]);
    }
    assert(t[line.len() as int] == '\n');
    lemma_first_of(t, '\n', line.len());
    assert(t.take(line.len() as int) =~= line);
    assert(t.skip(line.len() + 1int) =~= rest);
}

/// What stands behind the first place where a text occurs in another: `front`
/// is what stands before that place.
pub proof fn law_behind_the_first_place(front: Seq<char>, needle: Seq<char>, back: Seq<char>)
    requires
        forall|a: Seq<char>, b: Seq<char>|
            front + needle + back == #[trigger] (a + needle + b) ==> a.len() >= front.len(),
    ensures
        occurs(front + needle + back, needle),
        after_first(front + needle + back, needle) == Some(back),
{
    let t = front + needle + back;
    let k = front.len() as int;
    assert(t.subrange(k, k + needle.len()) =~= needle);
    assert(occurs_at(t, needle, k));
    assert forall|j: int| 0 <= j < k implies !occurs_at(t, needle, j) by {
        if occurs_at(t, needle, j) {
            let a = t.take(j);
            let b = t.skip(j + needle.len());
            assert(t =~= a + needle + b) by {
                assert(t =~= t.take(j) + t.subrange(j, j + needle.len()) + t.skip(
                    j + needle.len(),
                ));
            }
            assert(front + needle + back == (a + needle + b));
        }
    }
    assert(first_occurrence(t, needle, k));
    lemma_first_occurrence(t, needle, k);
    assert(t.skip(k + needle.len()) =~= back);
}

/// A text that occurs in another parts it in three.
pub proof fn law_occurrence_parts_the_text(hay: Seq<char>, needle: Seq<char>)
    ensures
        occurs(hay, needle) <==> exists|a: Seq<char>, b: Seq<char>|
            hay == #[trigger] (a + needle + b),
        !occurs(hay, needle) ==> after_first(hay, needle) is None,
{
    if occurs(hay, needle) {
        let i = choose|i: int| occurs_at(hay, needle, i);
        let a = hay.take(i);
        let b = hay.skip(i + needle.len());
        assert(hay =~= hay.take(i) + hay.subrange(i, i + needle.len()) + hay.skip(
            i + needle.len(),
        ));
        assert(hay == (a + needle + b));
    }
    if exists|a: Seq<char>, b: Seq<char>| hay == #[trigger] (a + needle + b) {
        let (a, b) = choose|a: Seq<char>, b: Seq<char>| hay == #[trigger] (a + needle + b);
        assert(hay.subrange(a.len() as int, (a.len() + needle.len()) as int) =~= needle);
        assert(occurs_at(hay, needle, a.len() as int));
    }
}

/// What stands behind a prefix.
pub proof fn law_behind_a_prefix(t: Seq<char>, prefix: Seq<char>, rest: Seq<char>)
    ensures
        after_prefix(prefix + rest, prefix) == Some(rest),
        !prefix.is_prefix_of(t) ==> after_prefix(t, prefix) is None,
{
    assert((prefix + rest).subrange(0, prefix.len() as int) =~= prefix);
    assert((prefix + rest).skip(prefix.len() as int) =~= rest);
}

/// The digits of a number, most significant first.
pub proof fn law_digits_value(t: Seq<char>, c: char)
    requires
        '0' <= c <= '9',
    ensures
        digits_value(Seq::empty()) == 0,
        digits_value(t.push(c)) == 10 * digits_value(t) + (c as u32 - 48),
{
    assert(t.push(c).drop_last() =~= t);
}

/// A number is written with digits alone, at least one, and no zero in front
/// of others; and it is read back from what was written.
pub proof fn law_decimal_reads_back(n: nat, max: nat)
    ensures
        decimal(n).len() > 0,
        forall|i: int| 0 <= i < decimal(n).len() ==> '0' <= #[trigger] decimal(n)[i] <= '9',
        decimal(n).len() > 1 ==> decimal(n)[0] != '0',
        digits_value(decimal(n)) == n,
        n <= max ==> number_of(decimal(n), max) == Some(n),
        n > max ==> number_of(decimal(n), max) is None,
{
    lemma_decimal(n);
    assert(decimal(n)[0] != '+');
    let d = decimal(n);
    assert forall|i: int| 0 <= i < d.len() implies is_digit(#[trigger] d[i]) by {}
}

proof fn lemma_decimal(n: nat)
    ensures
        decimal(n).len() > 0,
        forall|i: int| 0 <= i < decimal(n).len() ==> '0' <= #[trigger] decimal(n)[i] <= '9',
        decimal(n).len() > 1 ==> decimal(n)[0] != '0',
        n > 0 ==> decimal(n)[0] != '0',
        digits_value(decimal(n)) == n,
    decreases n,
{
    reveal_with_fuel(digits_value, 2);
    let d = n % 10;
    lemma_digit_char(d);
    if n < 10 {
        assert(decimal(n).drop_last() =~= Seq::<char>::empty());
        assert(d == n);
        assert(digits_value(Seq::<char>::empty()) == 0);
    } else {
        lemma_decimal(n / 10);
        assert(decimal(n).drop_last() =~= decimal(n / 10));
        assert(decimal(n)[0] == decimal(n / 10)[0]);
    }
}

proof fn lemma_digit_char(d: nat)
    requires
        d < 10,
    ensures
        digit_char(d) as u32 == 48 + d,
        '0' <= digit_char(d) <= '9',
{
    let n = (48 + d) as u8;
    assert(n == 48 + d);
    assert(digit_char(d) == n as char);
}

/// A text is a number where it is digits alone, at least one, with a plus sign
/// in front or without, and where the value is in range.
pub proof fn law_numbers_are_digits(t: Seq<char>, max: nat)
    ensures
        t.len() == 0 ==> number_of(t, max) is None,
        t.len() > 0 && t[0] != '+' ==> (number_of(t, max) is Some <==> digits_value(t) <= max && (
        forall|i: int| 0 <= i < t.len() ==> '0' <= #[trigger] t[i] <= '9')),
        t.len() > 0 && t[0] != '+' && number_of(t, max) is Some ==> number_of(t, max) == Some(
            digits_value(t),
        ),
        number_of(seq!['+'] + t, max) == (if t.len() > 0 && t[0] == '+' {
            None
        } else {
            number_of(t, max)
        }),
{
    assert((seq!['+'] + t).drop_first() =~= t);
    if t.len() > 0 && t[0] == '+' {
        assert(!is_digit(t[0]));
    }
    if t.len() > 0 && t[0] != '+' {
        if forall|i: int| 0 <= i < t.len() ==> '0' <= #[trigger] t[i] <= '9' {
            assert forall|i: int| 0 <= i < t.len() implies is_digit(#[trigger] t[i]) by {}
        }
        if forall|i: int| 0 <= i < t.len() ==> is_digit(#[trigger] t[i]) {
            assert forall|i: int| 0 <= i < t.len() implies '0' <= #[trigger] t[i] <= '9' by {
                assert(is_digit(t[i]));
            }
        }
    }
}

/// The run of digits in front of a text.
pub proof fn law_digit_run(number: Seq<char>, rest: Seq<char>)
    requires
        forall|i: int| 0 <= i < number.len() ==> '0' <= #[trigger] number[i] <= '9',
        rest.len() == 0 || !('0' <= rest[0] <= '9'),
    ensures
        digit_run(number + rest) == number.len(),
    decreases number.len(),
{
    if number.len() > 0 {
        let n = number.drop_first();
        assert((number + rest).drop_first() =~= n + rest);
        assert forall|i: int| 0 <= i < n.len() implies '0' <= #[trigger] n[i] <= '9' by {
            assert(n[i] == number[i + 1]);
        }
        law_digit_run(n, rest);
        assert('0' <= number[0] <= '9');
    } else {
        assert(number + rest =~= rest);
    }
}

/// The texts of a list, one by one.
pub proof fn law_text_views(v: Seq<Vec<char>>, w: Seq<String>)
    ensures
        texts(v).len() == v.len(),
        forall|i: int| 0 <= i < v.len() ==> #[trigger] texts(v)[i] == v[i]@,
        string_views(w).len() == w.len(),
        forall|i: int| 0 <= i < w.len() ==> #[trigger] string_views(w)[i] == w[i]@,
{
}

/// Where a text stands in another, character by character; its first place is
/// the one before which there is no other.
pub proof fn law_places_of_a_text(hay: Seq<char>, needle: Seq<char>, i: int)
    ensures
        occurs_at(hay, needle, i) <==> 0 <= i && i + needle.len() <= hay.len() && (forall|k: int|
            0 <= k < needle.len() ==> hay[i + k] == #[trigger] needle[k]),
        first_occurrence(hay, needle, i) <==> occurs_at(hay, needle, i) && (forall|j: int|
            0 <= j < i ==> !#[trigger] occurs_at(hay, needle, j)),
{
    if 0 <= i && i + needle.len() <= hay.len() {
        let piece = hay.subrange(i, i + needle.len());
        if forall|k: int| 0 <= k < needle.len() ==> hay[i + k] == #[trigger] needle[k] {
            assert(piece =~= needle);
        }
        if piece == needle {
            assert forall|k: int| 0 <= k < needle.len() implies hay[i + k] == #[trigger] needle[
                k
            ] by {
                assert(piece[k] == hay[i + k]);
            }
        }
    }
}

} // verus!
