//! Operations on text, each with an exact statement over its characters.
use vstd::prelude::*;
use vstd::utf8::encode_utf8;
use vstd::utf8::encode_utf8_decode_utf8;

verus! {

/// `String::push` of std: the character is appended to the end of the string.
pub assume_specification[ String::push ](s: &mut String, c: char)
    ensures
        final(s)@ == old(s)@.push(c),
;

/// The characters of `s`, in order.
pub fn to_chars(s: &str) -> (chars: Vec<char>)
    ensures
        chars@ == s@,
{
    let mut chars: Vec<char> = Vec::new();
    for c in it: s.chars()
        invariant
            chars@ == it.seq().take(it.index()),
            it.seq() == s@,
    {
        chars.push(c);
        assert(chars@ == it.seq().take(it.index() + 1));
    }
    assert(s@.take(s@.len() as int) == s@);
    chars
}

/// The text made of the characters `chars[from..to]`.
pub fn from_chars(chars: &Vec<char>, from: usize, to: usize) -> (s: String)
    requires
        from <= to <= chars@.len(),
    ensures
        s@ == chars@.subrange(from as int, to as int),
{
    let mut s = String::new();
    let mut i: usize = from;
    while i < to
        invariant
            from <= i <= to <= chars@.len(),
            s@ == chars@.subrange(from as int, i as int),
        decreases to - i,
    {
        s.push(chars[i]);
        i = i + 1;
        assert(s@ == chars@.subrange(from as int, i as int));
    }
    s
}

/// `s` without the run of `c` at its end.
pub open spec fn trimmed_end(s: Seq<char>, c: char) -> Seq<char>
    decreases s.len(),
{
    if s.len() > 0 && s.last() == c {
        trimmed_end(s.drop_last(), c)
    } else {
        s
    }
}

/// Removes every `c` at the end of `s`.
pub fn trim_end(s: &str, c: char) -> (r: String)
    ensures
        r@ == trimmed_end(s@, c),
{
    let chars = to_chars(s);
    let mut end: usize = chars.len();
    assert(s@.take(s@.len() as int) == s@);
    while end > 0 && chars[end - 1] == c
        invariant
            end <= chars@.len(),
            chars@ == s@,
            trimmed_end(s@.take(end as int), c) == trimmed_end(s@, c),
        decreases end,
    {
        assert(s@.take(end as int).drop_last() == s@.take(end - 1));
        end = end - 1;
    }
    assert(s@.take(end as int) == s@.subrange(0, end as int));
    from_chars(&chars, 0, end)
}

/// Whether `s` ends in `suffix`.
pub open spec fn has_suffix(s: Seq<char>, suffix: Seq<char>) -> bool {
    s.len() >= suffix.len() && s.skip(s.len() - suffix.len()) == suffix
}

/// Whether `needle` stands in `s` at position `i`.
pub open spec fn occurs_at(s: Seq<char>, needle: Seq<char>, i: int) -> bool {
    0 <= i <= s.len() - needle.len() && s.subrange(i, i + needle.len()) == needle
}

/// Whether `needle` stands anywhere in `s`.
pub open spec fn has_part(s: Seq<char>, needle: Seq<char>) -> bool {
    exists|i: int| occurs_at(s, needle, i)
}

/// Tests whether `needle` stands in `s` at position `at`.
fn matches_at(s: &Vec<char>, needle: &Vec<char>, at: usize) -> (r: bool)
    requires
        at + needle@.len() <= s@.len(),
    ensures
        r == occurs_at(s@, needle@, at as int),
{
    let total: usize = s.len();
    let mut i: usize = 0;
    while i < needle.len()
        invariant
            total == s@.len(),
            at + needle@.len() <= s@.len(),
            i <= needle@.len(),
            forall|k: int| 0 <= k < i ==> s@[at + k] == needle@[k],
        decreases needle@.len() - i,
    {
        if s[at + i] != needle[i] {
            assert(s@.subrange(at as int, at + needle@.len())[i as int] != needle@[i as int]);
            return false;
        }
        i = i + 1;
    }
    assert(s@.subrange(at as int, at + needle@.len()) == needle@);
    true
}

/// Tests whether `s` ends in `suffix`.
pub fn ends_with(s: &str, suffix: &str) -> (r: bool)
    ensures
        r == has_suffix(s@, suffix@),
{
    let chars = to_chars(s);
    let tail = to_chars(suffix);
    if chars.len() < tail.len() {
        return false;
    }
    let at: usize = chars.len() - tail.len();
    assert(s@.skip(at as int) == s@.subrange(at as int, at + suffix@.len()));
    matches_at(&chars, &tail, at)
}

/// Tests whether `needle` stands anywhere in `s`.
pub fn contains(s: &str, needle: &str) -> (r: bool)
    ensures
        r == has_part(s@, needle@),
{
    let chars = to_chars(s);
    let part = to_chars(needle);
    if chars.len() < part.len() {
        return false;
    }
    let last: usize = chars.len() - part.len();
    let mut at: usize = 0;
    while at <= last
        invariant
            chars@ == s@,
            part@ == needle@,
            last == chars@.len() - part@.len(),
            at <= last + 1,
            forall|i: int| 0 <= i < at ==> !occurs_at(s@, needle@, i),
        decreases last + 1 - at,
    {
        if matches_at(&chars, &part, at) {
            assert(occurs_at(s@, needle@, at as int));
            return true;
        }
        if at == last {
            return false;
        }
        at = at + 1;
    }
    false
}

/// The lower-case form of an ASCII letter; any other character is left alone.
pub open spec fn ascii_lower(c: char) -> char {
    if 'A' <= c && c <= 'Z' {
        (c as u8 + 32) as char
    } else {
        c
    }
}

/// Whether two texts are the same but for the case of ASCII letters.
pub open spec fn same_ignoring_case(a: Seq<char>, b: Seq<char>) -> bool {
    a.len() == b.len() && forall|i: int| 0 <= i < a.len() ==> ascii_lower(a[i]) == ascii_lower(b[i])
}

fn lower(c: char) -> (r: char)
    ensures
        r == ascii_lower(c),
{
    if 'A' <= c && c <= 'Z' {
        (c as u8 + 32) as char
    } else {
        c
    }
}

/// Compares two texts without regard to the case of ASCII letters.
pub fn eq_ignore_ascii_case(a: &str, b: &str) -> (r: bool)
    ensures
        r == same_ignoring_case(a@, b@),
{
    let x = to_chars(a);
    let y = to_chars(b);
    if x.len() != y.len() {
        return false;
    }
    let mut i: usize = 0;
    while i < x.len()
        invariant
            x@ == a@,
            y@ == b@,
            x@.len() == y@.len(),
            i <= x@.len(),
            forall|k: int| 0 <= k < i ==> ascii_lower(a@[k]) == ascii_lower(b@[k]),
        decreases x@.len() - i,
    {
        if lower(x[i]) != lower(y[i]) {
            return false;
        }
        i = i + 1;
    }
    true
}

/// The decimal digit of a number below ten.
pub open spec fn digit(d: nat) -> char {
    (48 + d) as char
}

/// A number written in decimal, without leading zeros.
pub open spec fn decimal(n: nat) -> Seq<char>
    decreases n,
{
    if n < 10 {
        seq![digit(n)]
    } else {
        decimal(n / 10).push(digit(n % 10))
    }
}

/// Writes `n` in decimal.
pub fn to_decimal(n: usize) -> (s: String)
    ensures
        s@ == decimal(n as nat),
    decreases n,
{
    let last: char = (48u8 + (n % 10) as u8) as char;
    if n < 10 {
        let mut s = String::new();
        s.push(last);
        s
    } else {
        let mut s = to_decimal(n / 10);
        s.push(last);
        s
    }
}

/// Equal texts have equal encodings, and only they do.
pub proof fn lemma_encoding_injective(a: Seq<char>, b: Seq<char>)
    ensures
        encode_utf8(a) == encode_utf8(b) <==> a == b,
{
    encode_utf8_decode_utf8(a);
    encode_utf8_decode_utf8(b);
}

/// Tests whether two texts are the same.
pub fn same(a: &str, b: &str) -> (r: bool)
    ensures
        r == (a@ == b@),
{
    let x = a.as_bytes();
    let y = b.as_bytes();
    proof {
        lemma_encoding_injective(a@, b@);
    }
    if x.len() != y.len() {
        return false;
    }
    let mut i: usize = 0;
    while i < x.len()
        invariant
            x@ == encode_utf8(a@),
            y@ == encode_utf8(b@),
            encode_utf8(a@) == encode_utf8(b@) <==> a@ == b@,
            x@.len() == y@.len(),
            i <= x@.len(),
            forall|k: int| 0 <= k < i ==> x@[k] == y@[k],
        decreases x@.len() - i,
    {
        if x[i] != y[i] {
            return false;
        }
        i = i + 1;
    }
    assert(x@ == y@);
    true
}

/// Tests whether a text has no characters.
pub fn is_blank(s: &str) -> (r: bool)
    ensures
        r == (s@.len() == 0),
{
    proof {
        reveal_strlit("");
        assert(s@.len() == 0 ==> s@ =~= ""@);
    }
    same(s, "")
}

/// Trimming takes away a run of the character, all of it, and nothing else.
pub proof fn law_trimming_takes_the_whole_run(s: Seq<char>, c: char)
    ensures
        trimmed_end(s, c).len() <= s.len(),
        trimmed_end(s, c) == s.take(trimmed_end(s, c).len() as int),
        forall|i: int| trimmed_end(s, c).len() <= i < s.len() ==> #[trigger] s[i] == c,
        trimmed_end(s, c).len() > 0 ==> s[trimmed_end(s, c).len() - 1] != c,
    decreases s.len(),
{
    if s.len() > 0 && s.last() == c {
        let rest = s.drop_last();
        law_trimming_takes_the_whole_run(rest, c);
        let n = trimmed_end(s, c).len() as int;
        assert(rest.take(n) == s.take(n));
        assert forall|i: int| n <= i < s.len() implies #[trigger] s[i] == c by {
            if i < rest.len() {
                assert(rest[i] == c);
            }
        }
    } else {
        assert(s.take(s.len() as int) == s);
    }
}

/// Trimming does nothing to a text that does not end in the character, and undoes what
/// was appended of it.
pub proof fn law_trimming_undoes_appending(s: Seq<char>, c: char, n: nat)
    requires
        s.len() > 0 ==> s.last() != c,
    ensures
        trimmed_end(s + Seq::new(n, |i: int| c), c) == s,
    decreases n,
{
    let run = Seq::new(n, |i: int| c);
    if n > 0 {
        let shorter = Seq::new((n - 1) as nat, |i: int| c);
        law_trimming_undoes_appending(s, c, (n - 1) as nat);
        assert((s + run).drop_last() == s + shorter);
    } else {
        assert(s + run == s);
    }
}

/// A text ends in what was appended to it, and in nothing else.
pub proof fn law_suffix_is_what_stands_last(s: Seq<char>, suffix: Seq<char>)
    ensures
        has_suffix(s, suffix) <==> exists|front: Seq<char>| s == #[trigger] (front + suffix),
{
    if has_suffix(s, suffix) {
        let front = s.take(s.len() - suffix.len());
        assert(s == front + suffix);
    }
    if exists|front: Seq<char>| s == #[trigger] (front + suffix) {
        let front = choose|front: Seq<char>| s == #[trigger] (front + suffix);
        assert(s.skip(s.len() - suffix.len()) == suffix);
    }
}

/// A text has a part where something may stand before and after it.
pub proof fn law_part_stands_between(s: Seq<char>, needle: Seq<char>)
    ensures
        has_part(s, needle) <==> exists|front: Seq<char>, back: Seq<char>|
            s == #[trigger] (front + needle + back),
{
    if has_part(s, needle) {
        let i = choose|i: int| occurs_at(s, needle, i);
        let front = s.take(i);
        let back = s.skip(i + needle.len());
        assert(s == front + needle + back);
    }
    if exists|front: Seq<char>, back: Seq<char>| s == #[trigger] (front + needle + back) {
        let (front, back) = choose|front: Seq<char>, back: Seq<char>|
            s == #[trigger] (front + needle + back);
        assert(s.subrange(front.len() as int, front.len() as int + needle.len()) == needle);
        assert(occurs_at(s, needle, front.len() as int));
    }
}

/// Whether two characters are the same, or the two cases of one ASCII letter.
pub open spec fn same_letter(a: char, b: char) -> bool {
    ||| a == b
    ||| 'A' <= a && a <= 'Z' && b as int == a as int + 32
    ||| 'A' <= b && b <= 'Z' && a as int == b as int + 32
}

/// Texts are compared letter by letter, and only the case of ASCII letters is left
/// out of account.
pub proof fn law_only_letter_case_is_ignored(a: Seq<char>, b: Seq<char>)
    ensures
        same_ignoring_case(a, b) <==> a.len() == b.len() && forall|i: int|
            0 <= i < a.len() ==> same_letter(#[trigger] a[i], b[i]),
{
    if same_ignoring_case(a, b) {
        assert forall|i: int| 0 <= i < a.len() implies same_letter(#[trigger] a[i], b[i]) by {
            assert(ascii_lower(a[i]) == ascii_lower(b[i]));
        }
    }
    if a.len() == b.len() && forall|i: int| 0 <= i < a.len() ==> same_letter(#[trigger] a[i], b[i]) {
        assert forall|i: int| 0 <= i < a.len() implies ascii_lower(a[i]) == ascii_lower(b[i]) by {
            assert(same_letter(a[i], b[i]));
        }
    }
}

/// The number that a run of decimal digits stands for.
pub open spec fn decimal_value(s: Seq<char>) -> int
    decreases s.len(),
{
    if s.len() == 0 {
        0
    } else {
        10 * decimal_value(s.drop_last()) + (s.last() as int - '0' as int)
    }
}

/// What is written in decimal reads back as the number: it holds digits only, and does
/// not begin with a zero but for zero itself.
pub proof fn law_decimal_reads_back(n: nat)
    ensures
        decimal_value(decimal(n)) == n,
        decimal(n).len() > 0,
        forall|i: int| 0 <= i < decimal(n).len() ==> '0' <= #[trigger] decimal(n)[i] && decimal(n)[i] <= '9',
        decimal(n)[0] == '0' ==> n == 0,
    decreases n,
{
    let s = decimal(n);
    if n < 10 {
        assert(s.drop_last() =~= Seq::empty());
        assert(decimal_value(s.drop_last()) == 0);
    } else {
        let front = decimal(n / 10);
        law_decimal_reads_back(n / 10);
        assert(s.drop_last() == front);
        assert(s[0] == front[0]);
        assert forall|i: int| 0 <= i < s.len() implies '0' <= #[trigger] s[i] && s[i] <= '9' by {
            if i < front.len() {
                assert(s[i] == front[i]);
            }
        }
    }
}

} // verus!
