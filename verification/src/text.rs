//! Character-sequence tools shared by the decoder and the encoder.
//!
//! Every function here works on the characters of a string (`Seq<char>` in
//! contracts, `Vec<char>` in code) and is specified by a spec function of the
//! same name stem.

use vstd::prelude::*;
use vstd::string::*;
use vstd::std_specs::iter::IteratorSpec;

verus! {

/// `String::push` appends one character to the end of the string.
pub assume_specification[ String::push ](s: &mut String, ch: char)
    ensures
        final(s)@ == old(s)@.push(ch),
;

/// The characters of `s`, in order.
pub fn chars_of(s: &str) -> (v: Vec<char>)
    ensures
        v@ == s@,
{
    broadcast use vstd::string::group_string_axioms;
    let mut v: Vec<char> = Vec::new();
    let mut it = s.chars();
    loop
        invariant
            it.obeys_prophetic_iter_laws(),
            it.decrease() is Some,
            v@ + it.remaining() == s@,
        decreases it.decrease()->0,
    {
        let ghost before = it.remaining();
        match it.next() {
            Some(c) => {
                v.push(c);
                assert(v@ + it.remaining() =~= s@) by {
                    assert(before =~= seq![before[0]] + before.drop_first());
                }
            },
            None => {
                assert(before.len() == 0);
                assert(v@ =~= s@);
                return v;
            },
        }
    }
}

/// The string made of `v[from..to]`.
pub fn string_of(v: &Vec<char>, from: usize, to: usize) -> (s: String)
    requires
        from <= to <= v@.len(),
    ensures
        s@ == v@.subrange(from as int, to as int),
{
    let mut s = String::new();
    let mut i: usize = from;
    while i < to
        invariant
            from <= i <= to <= v@.len(),
            s@ == v@.subrange(from as int, i as int),
        decreases to - i,
    {
        s.push(v[i]);
        i += 1;
        assert(s@ =~= v@.subrange(from as int, i as int));
    }
    s
}

/// Whether two strings hold the same characters.
pub fn same_text(a: &str, b: &str) -> (r: bool)
    ensures
        r == (a@ == b@),
{
    let x = a.to_owned();
    let y = b.to_owned();
    x == y
}

/// `pat` occurs in `s` at index `i`.
pub open spec fn matches_at(s: Seq<char>, pat: Seq<char>, i: int) -> bool {
    0 <= i && i + pat.len() <= s.len() && s.subrange(i, i + pat.len()) == pat
}

/// The least index at or after `from` where `pat` occurs in `s`, or `s.len()`
/// where there is none.
pub open spec fn find_from(s: Seq<char>, pat: Seq<char>, from: int) -> int
    decreases s.len() - from,
{
    if from < 0 || from >= s.len() {
        s.len() as int
    } else if matches_at(s, pat, from) {
        from
    } else {
        find_from(s, pat, from + 1)
    }
}

/// `find_from` stays within the text, and a result short of the end is a match
/// with no match before it.
pub proof fn lemma_find_from(s: Seq<char>, pat: Seq<char>, from: int)
    requires
        0 <= from <= s.len(),
    ensures
        from <= find_from(s, pat, from) <= s.len(),
        find_from(s, pat, from) < s.len() ==> matches_at(s, pat, find_from(s, pat, from)),
        forall|j: int| from <= j < find_from(s, pat, from) ==> !matches_at(s, pat, j),
    decreases s.len() - from,
{
    if from < s.len() && !matches_at(s, pat, from) {
        lemma_find_from(s, pat, from + 1);
    }
}

/// An index `k` that has no occurrence of `pat` between `from` and itself,
/// and is an occurrence or the end of the text, is what `find_from` gives.
pub proof fn lemma_find_from_is(s: Seq<char>, pat: Seq<char>, from: int, k: int)
    requires
        0 <= from <= k <= s.len(),
        forall|j: int| from <= j < k ==> !matches_at(s, pat, j),
        k == s.len() || matches_at(s, pat, k),
    ensures
        find_from(s, pat, from) == k,
{
    lemma_find_from(s, pat, from);
}

/// A search may skip a stretch that holds no occurrence.
pub proof fn lemma_find_from_skip(s: Seq<char>, pat: Seq<char>, from: int, to: int)
    requires
        0 <= from <= to <= s.len(),
        forall|j: int| from <= j < to ==> !matches_at(s, pat, j),
    ensures
        find_from(s, pat, from) == find_from(s, pat, to),
{
    lemma_find_from(s, pat, to);
    lemma_find_from_is(s, pat, from, find_from(s, pat, to));
}

/// Whether `pat` occurs anywhere in `s`.
pub open spec fn contains(s: Seq<char>, pat: Seq<char>) -> bool {
    find_from(s, pat, 0) < s.len()
}

/// What stands before the first occurrence of `pat`; all of `s` where `pat`
/// does not occur.
pub open spec fn before(s: Seq<char>, pat: Seq<char>) -> Seq<char> {
    s.subrange(0, find_from(s, pat, 0))
}

/// What stands after the first occurrence of `pat`; empty where `pat` does not
/// occur.
pub open spec fn after(s: Seq<char>, pat: Seq<char>) -> Seq<char> {
    if contains(s, pat) {
        s.subrange(find_from(s, pat, 0) + pat.len(), s.len() as int)
    } else {
        Seq::empty()
    }
}

/// Whether `pat` occurs in `s` at index `i`.
pub fn matches_at_exec(s: &Vec<char>, pat: &Vec<char>, i: usize) -> (r: bool)
    ensures
        r == matches_at(s@, pat@, i as int),
{
    if pat.len() > s.len() || i > s.len() - pat.len() {
        return false;
    }
    let mut k: usize = 0;
    while k < pat.len()
        invariant
            i + pat.len() <= s.len(),
            k <= pat.len(),
            forall|j: int| 0 <= j < k ==> s@[i + j] == pat@[j],
        decreases pat.len() - k,
    {
        if s[i + k] != pat[k] {
            assert(s@.subrange(i as int, i + pat@.len())[k as int] == s@[i + k]);
            return false;
        }
        k += 1;
    }
    assert(s@.subrange(i as int, i + pat@.len()) =~= pat@);
    true
}

/// Finds the first occurrence of `pat` in `s` at or after `from`.
pub fn find_from_exec(s: &Vec<char>, pat: &Vec<char>, from: usize) -> (r: usize)
    requires
        from <= s@.len(),
    ensures
        r == find_from(s@, pat@, from as int),
        from <= r <= s@.len(),
        r < s@.len() ==> matches_at(s@, pat@, r as int),
{
    let mut i: usize = from;
    while i < s.len()
        invariant
            from <= i <= s@.len(),
            find_from(s@, pat@, from as int) == find_from(s@, pat@, i as int),
        decreases s.len() - i,
    {
        if matches_at_exec(s, pat, i) {
            return i;
        }
        i += 1;
    }
    s.len()
}


/// A copy of `v[from..to]`.
pub fn slice_of(v: &Vec<char>, from: usize, to: usize) -> (r: Vec<char>)
    requires
        from <= to <= v@.len(),
    ensures
        r@ == v@.subrange(from as int, to as int),
{
    let mut r: Vec<char> = Vec::new();
    let mut i: usize = from;
    while i < to
        invariant
            from <= i <= to <= v@.len(),
            r@ == v@.subrange(from as int, i as int),
        decreases to - i,
    {
        r.push(v[i]);
        i += 1;
        assert(r@ =~= v@.subrange(from as int, i as int));
    }
    r
}

/// Splits `s` once at the first occurrence of `pat`: what stands before it and
/// what stands after it, and whether it occurred at all.
pub fn split_once(s: &Vec<char>, pat: &Vec<char>) -> (r: (Vec<char>, Vec<char>, bool))
    ensures
        r.0@ == before(s@, pat@),
        r.1@ == after(s@, pat@),
        r.2 == contains(s@, pat@),
{
    let i = find_from_exec(s, pat, 0);
    let head = slice_of(s, 0, i);
    if i < s.len() {
        let tail = slice_of(s, i + pat.len(), s.len());
        (head, tail, true)
    } else {
        (head, Vec::new(), false)
    }
}

/// The characters that Unicode gives the property White_Space.
pub open spec fn is_space(c: char) -> bool {
    let u = c as u32;
    (0x09 <= u && u <= 0x0d) || u == 0x20 || u == 0x85 || u == 0xa0 || u == 0x1680 || (0x2000 <= u
        && u <= 0x200a) || u == 0x2028 || u == 0x2029 || u == 0x202f || u == 0x205f || u == 0x3000
}

/// Whether `c` is a white-space character.
pub fn is_space_exec(c: char) -> (r: bool)
    ensures
        r == is_space(c),
{
    let u: u32 = c as u32;
    (0x09 <= u && u <= 0x0d) || u == 0x20 || u == 0x85 || u == 0xa0 || u == 0x1680 || (0x2000 <= u
        && u <= 0x200a) || u == 0x2028 || u == 0x2029 || u == 0x202f || u == 0x205f || u == 0x3000
}

/// The least index at or after `from` whose character is white space
/// (`space == true`) or is not (`space == false`); `s.len()` where there is none.
pub open spec fn scan(s: Seq<char>, from: int, space: bool) -> int
    decreases s.len() - from,
{
    if from < 0 || from >= s.len() {
        s.len() as int
    } else if is_space(s[from]) == space {
        from
    } else {
        scan(s, from + 1, space)
    }
}

/// `scan` stays within the text; short of the end it names a character of
/// the kind asked for, and no character before it is of that kind.
pub proof fn lemma_scan(s: Seq<char>, from: int, space: bool)
    requires
        0 <= from <= s.len(),
    ensures
        from <= scan(s, from, space) <= s.len(),
        scan(s, from, space) < s.len() ==> is_space(s[scan(s, from, space)]) == space,
        forall|j: int| from <= j < scan(s, from, space) ==> is_space(s[j]) != space,
    decreases s.len() - from,
{
    if from < s.len() && is_space(s[from]) != space {
        lemma_scan(s, from + 1, space);
    }
}

/// An index `k` that has no character of the kind asked for between `from`
/// and itself, and holds one or is the end of the text, is what `scan` gives.
pub proof fn lemma_scan_is(s: Seq<char>, from: int, space: bool, k: int)
    requires
        0 <= from <= k <= s.len(),
        forall|j: int| from <= j < k ==> is_space(s[j]) != space,
        k == s.len() || is_space(s[k]) == space,
    ensures
        scan(s, from, space) == k,
{
    lemma_scan(s, from, space);
}

/// Computes `scan`.
pub fn scan_exec(s: &Vec<char>, from: usize, space: bool) -> (r: usize)
    requires
        from <= s@.len(),
    ensures
        r == scan(s@, from as int, space),
        from <= r <= s@.len(),
{
    let mut i: usize = from;
    while i < s.len()
        invariant
            from <= i <= s@.len(),
            scan(s@, from as int, space) == scan(s@, i as int, space),
        decreases s.len() - i,
    {
        if is_space_exec(s[i]) == space {
            return i;
        }
        i += 1;
    }
    s.len()
}

/// Where the first white-space separated word of `s` at or after `from` begins.
pub open spec fn word_start(s: Seq<char>, from: int) -> int {
    scan(s, from, false)
}

/// Where that word ends.
pub open spec fn word_end(s: Seq<char>, from: int) -> int {
    scan(s, word_start(s, from), true)
}

/// The ASCII lower-case form of `c`; other characters are kept.
pub open spec fn lower_char(c: char) -> char {
    if 'A' <= c && c <= 'Z' {
        ((c as u8) + 32) as char
    } else {
        c
    }
}

/// `s` with its ASCII letters in lower case.
pub open spec fn lower(s: Seq<char>) -> Seq<char> {
    Seq::new(s.len(), |i: int| lower_char(s[i]))
}

/// Computes `lower_char`.
pub fn lower_char_exec(c: char) -> (r: char)
    ensures
        r == lower_char(c),
{
    if 'A' <= c && c <= 'Z' {
        ((c as u8) + 32) as char
    } else {
        c
    }
}

/// Whether `s`, lower-cased, reads `name`.
pub fn lower_is(s: &Vec<char>, name: &str) -> (r: bool)
    ensures
        r == (lower(s@) == name@),
{
    let n = chars_of(name);
    if n.len() != s.len() {
        return false;
    }
    let mut k: usize = 0;
    while k < s.len()
        invariant
            n@ == name@,
            n@.len() == s@.len(),
            k <= s@.len(),
            forall|j: int| 0 <= j < k ==> lower(s@)[j] == n@[j],
        decreases s.len() - k,
    {
        if lower_char_exec(s[k]) != n[k] {
            assert(lower(s@)[k as int] != n@[k as int]);
            return false;
        }
        k += 1;
    }
    assert(lower(s@) =~= n@);
    true
}

/// The character of the decimal digit `d`.
pub open spec fn digit_of(d: int) -> char {
    if d == 0 {
        '0'
    } else if d == 1 {
        '1'
    } else if d == 2 {
        '2'
    } else if d == 3 {
        '3'
    } else if d == 4 {
        '4'
    } else if d == 5 {
        '5'
    } else if d == 6 {
        '6'
    } else if d == 7 {
        '7'
    } else if d == 8 {
        '8'
    } else {
        '9'
    }
}

/// The decimal numeral of `n`, without leading zeros.
pub open spec fn decimal(n: nat) -> Seq<char>
    decreases n,
{
    if n < 10 {
        seq![digit_of(n as int)]
    } else {
        decimal(n / 10).push(digit_of((n % 10) as int))
    }
}

/// The decimal numeral of `n`, with a minus sign where `n` is negative.
pub open spec fn signed_decimal(n: int) -> Seq<char> {
    if n < 0 {
        seq!['-'] + decimal((-n) as nat)
    } else {
        decimal(n as nat)
    }
}

/// Computes `digit_of`.
pub fn digit_of_exec(d: u64) -> (c: char)
    requires
        d < 10,
    ensures
        c == digit_of(d as int),
{
    if d == 0 {
        '0'
    } else if d == 1 {
        '1'
    } else if d == 2 {
        '2'
    } else if d == 3 {
        '3'
    } else if d == 4 {
        '4'
    } else if d == 5 {
        '5'
    } else if d == 6 {
        '6'
    } else if d == 7 {
        '7'
    } else if d == 8 {
        '8'
    } else {
        '9'
    }
}

/// Appends the decimal numeral of `n` to `out`.
pub fn push_decimal(out: &mut Vec<char>, n: u64)
    ensures
        final(out)@ == old(out)@ + decimal(n as nat),
    decreases n,
{
    if n >= 10 {
        push_decimal(out, n / 10);
    }
    out.push(digit_of_exec(n % 10));
    assert(out@ =~= old(out)@ + decimal(n as nat));
}

/// Appends the decimal numeral of `n`, signed, to `out`.
pub fn push_signed_decimal(out: &mut Vec<char>, n: i64)
    ensures
        final(out)@ == old(out)@ + signed_decimal(n as int),
{
    if n < 0 {
        out.push('-');
        let m: u64 = if n == i64::MIN {
            9223372036854775808u64
        } else {
            (-n) as u64
        };
        push_decimal(out, m);
        assert(out@ =~= old(out)@ + signed_decimal(n as int));
    } else {
        push_decimal(out, n as u64);
    }
}

/// Appends the characters of `s` to `out`.
pub fn push_str(out: &mut Vec<char>, s: &str)
    ensures
        final(out)@ == old(out)@ + s@,
{
    let mut v = chars_of(s);
    out.append(&mut v);
}

/// Appends the characters of `v` to `out`.
pub fn push_all(out: &mut Vec<char>, v: &Vec<char>)
    ensures
        final(out)@ == old(out)@ + v@,
{
    let mut i: usize = 0;
    while i < v.len()
        invariant
            i <= v@.len(),
            out@ == old(out)@ + v@.subrange(0, i as int),
        decreases v.len() - i,
    {
        out.push(v[i]);
        i += 1;
        assert(out@ =~= old(out)@ + v@.subrange(0, i as int));
    }
    assert(v@.subrange(0, v@.len() as int) =~= v@);
}

/// Whether `c` is a decimal digit.
pub open spec fn is_digit(c: char) -> bool {
    '0' <= c && c <= '9'
}

/// The number that the digits `s[i..]` continue from `acc`; `None` where one
/// of them is no digit.
pub open spec fn number_from(s: Seq<char>, i: int, acc: nat) -> Option<nat>
    decreases s.len() - i,
{
    if i < 0 || i >= s.len() {
        Some(acc)
    } else if !is_digit(s[i]) {
        None
    } else {
        number_from(s, i + 1, acc * 10 + ((s[i] as u32) - 48) as nat)
    }
}

/// The value of an unsigned decimal numeral: digits, at least one, after an
/// optional `+`. `None` for any other text and for a value above `usize::MAX`.
pub open spec fn parse_number(s: Seq<char>) -> Option<usize> {
    let start: int = if s.len() > 0 && s[0] == '+' {
        1
    } else {
        0
    };
    if start >= s.len() {
        None
    } else {
        match number_from(s, start, 0) {
            Some(v) => if v <= usize::MAX {
                Some(v as usize)
            } else {
                None
            },
            None => None,
        }
    }
}

/// A numeral's value is no less than what its first digits gave.
pub proof fn lemma_number_grows(s: Seq<char>, i: int, acc: nat)
    ensures
        number_from(s, i, acc) matches Some(v) ==> v >= acc,
    decreases s.len() - i,
{
    if 0 <= i && i < s.len() && is_digit(s[i]) {
        lemma_number_grows(s, i + 1, acc * 10 + ((s[i] as u32) - 48) as nat);
    }
}

/// Computes `parse_number`.
pub fn parse_number_exec(s: &Vec<char>) -> (r: Option<usize>)
    ensures
        r == parse_number(s@),
{
    let start: usize = if s.len() > 0 && s[0] == '+' {
        1
    } else {
        0
    };
    if start >= s.len() {
        return None;
    }
    let mut acc: usize = 0;
    let mut i: usize = start;
    while i < s.len()
        invariant
            start <= i <= s@.len(),
            start < s@.len(),
            start as int == (if s@.len() > 0 && s@[0] == '+' {
                1int
            } else {
                0int
            }),
            number_from(s@, start as int, 0) == number_from(s@, i as int, acc as nat),
        decreases s.len() - i,
    {
        let c = s[i];
        if !('0' <= c && c <= '9') {
            return None;
        }
        let d: usize = ((c as u32) - 48) as usize;
        if acc > (usize::MAX - d) / 10 {
            proof {
                lemma_number_grows(s@, i + 1, acc as nat * 10 + d as nat);
            }
            return None;
        }
        acc = acc * 10 + d;
        i += 1;
    }
    Some(acc)
}

/// `s` without the characters `c` at its start.
pub open spec fn trim_start(s: Seq<char>, c: char) -> Seq<char>
    decreases s.len(),
{
    if s.len() > 0 && s[0] == c {
        trim_start(s.drop_first(), c)
    } else {
        s
    }
}

/// `s` without the characters `c` at its end.
pub open spec fn trim_end(s: Seq<char>, c: char) -> Seq<char>
    decreases s.len(),
{
    if s.len() > 0 && s.last() == c {
        trim_end(s.drop_last(), c)
    } else {
        s
    }
}

/// `s` without the characters `c` at either end.
pub open spec fn trim(s: Seq<char>, c: char) -> Seq<char> {
    trim_end(trim_start(s, c), c)
}

/// Computes `trim_start`.
pub fn trim_start_exec(s: &Vec<char>, c: char) -> (r: Vec<char>)
    ensures
        r@ == trim_start(s@, c),
{
    let mut i: usize = 0;
    assert(s@.subrange(0, s@.len() as int) =~= s@);
    while i < s.len() && s[i] == c
        invariant
            i <= s@.len(),
            trim_start(s@, c) == trim_start(s@.subrange(i as int, s@.len() as int), c),
        decreases s.len() - i,
    {
        assert(s@.subrange(i as int, s@.len() as int).drop_first() =~= s@.subrange(
            i + 1,
            s@.len() as int,
        ));
        i += 1;
    }
    slice_of(s, i, s.len())
}

/// Computes `trim_end`.
pub fn trim_end_exec(s: &Vec<char>, c: char) -> (r: Vec<char>)
    ensures
        r@ == trim_end(s@, c),
{
    let mut n: usize = s.len();
    assert(s@.subrange(0, s@.len() as int) =~= s@);
    while n > 0 && s[n - 1] == c
        invariant
            n <= s@.len(),
            trim_end(s@, c) == trim_end(s@.subrange(0, n as int), c),
        decreases n,
    {
        assert(s@.subrange(0, n as int).drop_last() =~= s@.subrange(0, n - 1));
        n -= 1;
    }
    slice_of(s, 0, n)
}

/// `s[from..]` with every occurrence of `pat`, taken from the left and not
/// overlapping, replaced by `with`.
pub open spec fn replace_from(s: Seq<char>, pat: Seq<char>, with: Seq<char>, from: int) -> Seq<
    char,
>
    decreases s.len() - from,
{
    if from < 0 || from >= s.len() {
        Seq::empty()
    } else if pat.len() > 0 && matches_at(s, pat, from) {
        with + replace_from(s, pat, with, from + pat.len())
    } else {
        seq![s[from]] + replace_from(s, pat, with, from + 1)
    }
}

/// `s` with every occurrence of `pat` replaced by `with`.
pub open spec fn replace(s: Seq<char>, pat: Seq<char>, with: Seq<char>) -> Seq<char> {
    replace_from(s, pat, with, 0)
}

/// A text that does not hold the first character of `pat` does not hold
/// `pat`: replacing changes nothing.
pub proof fn lemma_replace_none(s: Seq<char>, pat: Seq<char>, with: Seq<char>, from: int)
    requires
        pat.len() > 0,
        free_of(s, pat[0]),
        0 <= from <= s.len(),
    ensures
        replace_from(s, pat, with, from) == s.subrange(from, s.len() as int),
    decreases s.len() - from,
{
    if from < s.len() {
        if matches_at(s, pat, from) {
            assert(s.subrange(from, from + pat.len())[0] == pat[0]);
        }
        lemma_replace_none(s, pat, with, from + 1);
        assert(seq![s[from]] + s.subrange(from + 1, s.len() as int) =~= s.subrange(
            from,
            s.len() as int,
        ));
    } else {
        assert(s.subrange(from, s.len() as int) =~= Seq::<char>::empty());
    }
}

/// Computes `replace`.
pub fn replace_exec(s: &Vec<char>, pat: &Vec<char>, with: &Vec<char>) -> (r: Vec<char>)
    ensures
        r@ == replace(s@, pat@, with@),
{
    let mut out: Vec<char> = Vec::new();
    let mut i: usize = 0;
    while i < s.len()
        invariant
            i <= s@.len(),
            out@ + replace_from(s@, pat@, with@, i as int) == replace(s@, pat@, with@),
        decreases s.len() - i,
    {
        let ghost prev = out@;
        if pat.len() > 0 && matches_at_exec(s, pat, i) {
            push_all(&mut out, with);
            i += pat.len();
            assert(out@ + replace_from(s@, pat@, with@, i as int) =~= prev + (with@ + replace_from(
                s@,
                pat@,
                with@,
                i as int,
            )));
        } else {
            out.push(s[i]);
            i += 1;
            assert(out@ + replace_from(s@, pat@, with@, i as int) =~= prev + (seq![s@[i - 1]]
                + replace_from(s@, pat@, with@, i as int)));
        }
    }
    assert(out@ + Seq::<char>::empty() =~= out@);
    out
}


/// The pieces of `s[from..]` between occurrences of the character `sep`. A
/// text without `sep` is one piece; so is the empty text.
pub open spec fn split(s: Seq<char>, sep: char, from: int) -> Seq<Seq<char>>
    decreases s.len() - from,
{
    if from < 0 || from > s.len() {
        Seq::empty()
    } else {
        let end = find_from(s, seq![sep], from);
        let piece = s.subrange(from, end);
        if end >= s.len() || end < from {
            seq![piece]
        } else {
            seq![piece] + split(s, sep, end + 1)
        }
    }
}

/// A text always splits into at least one piece.
pub proof fn lemma_split_nonempty(s: Seq<char>, sep: char, from: int)
    requires
        0 <= from <= s.len(),
    ensures
        split(s, sep, from).len() > 0,
{
}

/// `c` does not occur in `s`.
pub open spec fn free_of(s: Seq<char>, c: char) -> bool {
    forall|i: int| 0 <= i < s.len() ==> s[i] != c
}

/// A search behind a prefix finds what the search in the rest finds.
pub proof fn lemma_find_from_shift(pre: Seq<char>, rest: Seq<char>, pat: Seq<char>, from: int)
    requires
        0 <= from <= rest.len(),
    ensures
        find_from(pre + rest, pat, pre.len() + from) == pre.len() + find_from(rest, pat, from),
{
    let s = pre + rest;
    let n = pre.len() as int;
    let k = find_from(rest, pat, from);
    lemma_find_from(rest, pat, from);
    assert forall|j: int| 0 <= j implies (matches_at(s, pat, n + j) <==> matches_at(
        rest,
        pat,
        j,
    )) by {
        if n + j + pat.len() <= s.len() {
            assert(s.subrange(n + j, n + j + pat.len()) =~= rest.subrange(j, j + pat.len()));
        }
    }
    assert forall|j: int| n + from <= j < n + k implies !matches_at(s, pat, j) by {
        assert(matches_at(s, pat, n + (j - n)) <==> matches_at(rest, pat, j - n));
    }
    assert(n + k == s.len() || matches_at(s, pat, n + k));
    lemma_find_from_is(s, pat, n + from, n + k);
}

/// The pieces behind a prefix are the pieces of the rest.
pub proof fn lemma_split_shift(pre: Seq<char>, rest: Seq<char>, sep: char, from: int)
    requires
        0 <= from <= rest.len(),
    ensures
        split(pre + rest, sep, pre.len() + from) == split(rest, sep, from),
    decreases rest.len() - from,
{
    let s = pre + rest;
    let n = pre.len() as int;
    lemma_find_from_shift(pre, rest, seq![sep], from);
    lemma_find_from(rest, seq![sep], from);
    let end = find_from(rest, seq![sep], from);
    assert(s.subrange(n + from, n + end) =~= rest.subrange(from, end));
    if end < rest.len() {
        lemma_split_shift(pre, rest, sep, end + 1);
    }
}

/// A text that does not hold the separator is one piece.
pub proof fn lemma_split_single(s: Seq<char>, sep: char)
    requires
        free_of(s, sep),
    ensures
        split(s, sep, 0) == seq![s],
{
    assert forall|j: int| 0 <= j < s.len() implies !matches_at(s, seq![sep], j) by {
        if matches_at(s, seq![sep], j) {
            assert(s.subrange(j, j + 1)[0] == sep);
        }
    }
    lemma_find_from_is(s, seq![sep], 0, s.len() as int);
    assert(s.subrange(0, s.len() as int) =~= s);
}

/// A text that begins with a piece and a separator splits into that piece
/// and the pieces of the rest.
pub proof fn lemma_split_first(first: Seq<char>, rest: Seq<char>, sep: char)
    requires
        free_of(first, sep),
    ensures
        split(first + seq![sep] + rest, sep, 0) == seq![first] + split(rest, sep, 0),
{
    let pre = first + seq![sep];
    let s = pre + rest;
    let n = first.len() as int;
    assert forall|j: int| 0 <= j < n implies !matches_at(s, seq![sep], j) by {
        if matches_at(s, seq![sep], j) {
            assert(s.subrange(j, j + 1)[0] == sep);
        }
    }
    assert(matches_at(s, seq![sep], n)) by {
        assert(s.subrange(n, n + 1) =~= seq![sep]);
    }
    lemma_find_from_is(s, seq![sep], 0, n);
    assert(s.subrange(0, n) =~= first);
    lemma_split_shift(pre, rest, sep, 0);
}

/// The character sequences that a vector of character vectors holds.
pub open spec fn views(v: Seq<Vec<char>>) -> Seq<Seq<char>> {
    Seq::new(v.len(), |k: int| v[k]@)
}

/// Computes `split`.
pub fn split_all(s: &Vec<char>, sep: char) -> (r: Vec<Vec<char>>)
    ensures
        views(r@) == split(s@, sep, 0),
{
    let pat: Vec<char> = vec![sep];
    assert(pat@ =~= seq![sep]);
    let mut out: Vec<Vec<char>> = Vec::new();
    let mut i: usize = 0;
    assert(views(out@) + split(s@, sep, 0) =~= split(s@, sep, 0));
    loop
        invariant
            i <= s@.len(),
            pat@ == seq![sep],
            views(out@) + split(s@, sep, i as int) == split(s@, sep, 0),
        decreases s@.len() - i,
    {
        let end = find_from_exec(s, &pat, i);
        let piece = slice_of(s, i, end);
        let ghost prev = views(out@);
        out.push(piece);
        if end >= s.len() {
            assert(views(out@) =~= prev + split(s@, sep, i as int));
            return out;
        }
        assert(views(out@) + split(s@, sep, end + 1) =~= prev + split(s@, sep, i as int));
        i = end + 1;
    }
}

} // verus!
