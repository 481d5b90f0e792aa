//! Byte strings: scanning, trimming, splitting, comparing and decimal numbers.
//!
//! Everything on the wire is a sequence of bytes. Text that the protocol fixes
//! (`GET`, `Content-Length`, ...) is written as a string literal and taken by
//! its bytes with [`text`].

use vstd::prelude::*;
use vstd::string::StringSliceAdditionalSpecFns;

verus! {

/// The bytes of a piece of text.
pub open spec fn text(s: &str) -> Seq<u8> {
    s.spec_bytes()
}

/// The line feed, which ends a line.
pub const LINE_FEED: u8 = 10;

/// The carriage return, which the protocol puts before a line feed.
pub const CARRIAGE_RETURN: u8 = 13;

/// The space.
pub const SPACE: u8 = 32;

/// The comma, which separates the entries of a list.
pub const COMMA: u8 = 44;

/// The slash, which separates the segments of a path.
pub const SLASH: u8 = 47;

/// The colon, which separates a header's name from its value.
pub const COLON: u8 = 58;

/// ASCII white space: space, tab, line feed, vertical tab, form feed and
/// carriage return.
pub open spec fn is_space(b: u8) -> bool {
    b == 32 || (9 <= b && b <= 13)
}

/// What a scan through a byte string looks for.
#[derive(Clone, Copy, Debug)]
pub enum Stop {
    /// The given byte.
    At(u8),
    /// Any white space byte.
    Space,
    /// Any byte that is not white space.
    NonSpace,
}

/// Whether a scan for `stop` ends on byte `b`.
pub open spec fn stops(stop: Stop, b: u8) -> bool {
    match stop {
        Stop::At(x) => b == x,
        Stop::Space => is_space(b),
        Stop::NonSpace => !is_space(b),
    }
}

/// The first index at or after `from` whose byte ends a scan for `stop`, or
/// the length of `s` where there is none.
pub open spec fn scan(s: Seq<u8>, from: int, stop: Stop) -> int
    decreases s.len() - from,
{
    if from < 0 || from >= s.len() {
        s.len() as int
    } else if stops(stop, s[from]) {
        from
    } else {
        scan(s, from + 1, stop)
    }
}

/// A scan ends in range, on the first byte that stops it.
pub proof fn lemma_scan(s: Seq<u8>, from: int, stop: Stop)
    requires
        0 <= from <= s.len(),
    ensures
        from <= scan(s, from, stop) <= s.len(),
        forall|j: int| from <= j < scan(s, from, stop) ==> !stops(stop, #[trigger] s[j]),
        scan(s, from, stop) < s.len() ==> stops(stop, s[scan(s, from, stop)]),
    decreases s.len() - from,
{
    if from < s.len() && !stops(stop, s[from]) {
        lemma_scan(s, from + 1, stop);
    }
}

/// The index that a scan ends on is the only one with the properties of
/// [`lemma_scan`].
pub proof fn lemma_scan_unique(s: Seq<u8>, from: int, stop: Stop, i: int)
    requires
        0 <= from <= i <= s.len(),
        forall|j: int| from <= j < i ==> !stops(stop, #[trigger] s[j]),
        i < s.len() ==> stops(stop, s[i]),
    ensures
        scan(s, from, stop) == i,
    decreases i - from,
{
    if from < i {
        lemma_scan_unique(s, from + 1, stop, i);
    }
}

/// Whether byte `b` is ASCII white space.
pub fn is_space_byte(b: u8) -> (r: bool)
    ensures
        r == is_space(b),
{
    b == 32 || (9 <= b && b <= 13)
}

/// Whether a scan for `stop` ends on byte `b`.
pub fn stops_at(stop: Stop, b: u8) -> (r: bool)
    ensures
        r == stops(stop, b),
{
    match stop {
        Stop::At(x) => b == x,
        Stop::Space => is_space_byte(b),
        Stop::NonSpace => !is_space_byte(b),
    }
}

/// Scans `s` from index `from` for the first byte that `stop` names. Returns
/// its index, or the length of `s` where there is none.
pub fn scan_bytes(s: &[u8], from: usize, stop: Stop) -> (i: usize)
    ensures
        i == scan(s@, from as int, stop),
        i <= s.len(),
        from <= s.len() ==> from <= i,
{
    if from >= s.len() {
        return s.len();
    }
    let mut i: usize = from;
    while i < s.len() && !stops_at(stop, s[i])
        invariant
            from <= i <= s.len(),
            forall|j: int| from <= j < i ==> !stops(stop, #[trigger] s@[j]),
        decreases s.len() - i,
    {
        i += 1;
    }
    proof {
        lemma_scan_unique(s@, from as int, stop, i as int);
    }
    i
}

/// `s` without the white space at its start.
pub open spec fn trim_start(s: Seq<u8>) -> Seq<u8> {
    s.skip(scan(s, 0, Stop::NonSpace))
}

/// `s` without the white space at its end.
pub open spec fn trim_end(s: Seq<u8>) -> Seq<u8>
    decreases s.len(),
{
    if s.len() > 0 && is_space(s.last()) {
        trim_end(s.drop_last())
    } else {
        s
    }
}

/// `s` without the white space at either end.
pub open spec fn trim(s: Seq<u8>) -> Seq<u8> {
    trim_end(trim_start(s))
}

/// The views of a list of byte strings.
pub open spec fn views(parts: Seq<Vec<u8>>) -> Seq<Seq<u8>> {
    Seq::new(parts.len(), |i: int| parts[i]@)
}

/// The words of `s` that begin at or after `from`: its maximal runs of bytes
/// that are not white space, in order.
pub open spec fn words_from(s: Seq<u8>, from: int) -> Seq<Seq<u8>>
    decreases s.len() - from,
{
    let a = scan(s, from, Stop::NonSpace);
    let b = scan(s, a, Stop::Space);
    if from <= a && a < b && b <= s.len() {
        seq![s.subrange(a, b)] + words_from(s, b)
    } else {
        seq![]
    }
}

/// The words of `s`: what is left when it is cut at every run of white space.
pub open spec fn words(s: Seq<u8>) -> Seq<Seq<u8>> {
    words_from(s, 0)
}

/// The pieces of `s` from index `from` on, cut at every byte `sep`. There is
/// one piece more than there are separators, and a piece may be empty.
pub open spec fn split_from(s: Seq<u8>, sep: u8, from: int) -> Seq<Seq<u8>>
    decreases s.len() - from,
{
    let i = scan(s, from, Stop::At(sep));
    if from <= i && i < s.len() {
        seq![s.subrange(from, i)] + split_from(s, sep, i + 1)
    } else {
        seq![s.subrange(from, s.len() as int)]
    }
}

/// The pieces of `s`, cut at every byte `sep`.
pub open spec fn split(s: Seq<u8>, sep: u8) -> Seq<Seq<u8>> {
    split_from(s, sep, 0)
}

/// A copy of a byte string.
pub fn to_vec(s: &[u8]) -> (v: Vec<u8>)
    ensures
        v@ == s@,
{
    let mut v: Vec<u8> = Vec::new();
    v.extend_from_slice(s);
    assert(v@ =~= s@);
    v
}

/// Removes the white space at the end of `s`.
pub fn trimmed_end(s: &[u8]) -> (r: &[u8])
    ensures
        r@ == trim_end(s@),
{
    let mut end: usize = s.len();
    assert(s@.subrange(0, s.len() as int) =~= s@);
    while end > 0 && is_space_byte(s[end - 1])
        invariant
            end <= s.len(),
            trim_end(s@) == trim_end(s@.subrange(0, end as int)),
        decreases end,
    {
        assert(s@.subrange(0, end as int).drop_last() =~= s@.subrange(0, end - 1));
        end -= 1;
    }
    &s[0..end]
}

/// Removes the white space at both ends of `s`.
pub fn trimmed(s: &[u8]) -> (r: &[u8])
    ensures
        r@ == trim(s@),
{
    let start = scan_bytes(s, 0, Stop::NonSpace);
    let rest = &s[start..s.len()];
    assert(rest@ =~= trim_start(s@));
    trimmed_end(rest)
}

/// Cuts `s` into its words.
pub fn split_words(s: &[u8]) -> (parts: Vec<Vec<u8>>)
    ensures
        views(parts@) == words(s@),
{
    let mut parts: Vec<Vec<u8>> = Vec::new();
    let mut pos: usize = 0;
    assert(views(parts@) =~= Seq::<Seq<u8>>::empty());
    loop
        invariant
            pos <= s.len(),
            words(s@) == views(parts@) + words_from(s@, pos as int),
        decreases s.len() - pos,
    {
        let a = scan_bytes(s, pos, Stop::NonSpace);
        if a >= s.len() {
            assert(words_from(s@, pos as int) =~= Seq::<Seq<u8>>::empty());
            assert(views(parts@) + Seq::<Seq<u8>>::empty() =~= views(parts@));
            return parts;
        }
        let b = scan_bytes(s, a, Stop::Space);
        proof {
            lemma_scan(s@, pos as int, Stop::NonSpace);
            lemma_scan(s@, a as int, Stop::Space);
        }
        let word = to_vec(&s[a..b]);
        let ghost before = views(parts@);
        parts.push(word);
        assert(views(parts@) =~= before.push(s@.subrange(a as int, b as int)));
        assert(before + (seq![s@.subrange(a as int, b as int)] + words_from(s@, b as int))
            =~= before.push(s@.subrange(a as int, b as int)) + words_from(s@, b as int));
        pos = b;
    }
}

/// Cuts `s` at every byte `sep`.
pub fn split_on(s: &[u8], sep: u8) -> (parts: Vec<Vec<u8>>)
    ensures
        views(parts@) == split(s@, sep),
{
    let mut parts: Vec<Vec<u8>> = Vec::new();
    let mut pos: usize = 0;
    assert(views(parts@) =~= Seq::<Seq<u8>>::empty());
    loop
        invariant
            pos <= s.len(),
            split(s@, sep) == views(parts@) + split_from(s@, sep, pos as int),
        decreases s.len() - pos,
    {
        let i = scan_bytes(s, pos, Stop::At(sep));
        let ghost before = views(parts@);
        if i >= s.len() {
            let piece = to_vec(&s[pos..s.len()]);
            parts.push(piece);
            assert(views(parts@) =~= before.push(s@.subrange(pos as int, s.len() as int)));
            assert(before + seq![s@.subrange(pos as int, s.len() as int)]
                =~= before.push(s@.subrange(pos as int, s.len() as int)));
            return parts;
        }
        let piece = to_vec(&s[pos..i]);
        parts.push(piece);
        assert(views(parts@) =~= before.push(s@.subrange(pos as int, i as int)));
        assert(before + (seq![s@.subrange(pos as int, i as int)] + split_from(s@, sep, i + 1))
            =~= before.push(s@.subrange(pos as int, i as int)) + split_from(s@, sep, i + 1));
        pos = i + 1;
    }
}

/// The lower-case form of an ASCII letter; any other byte as it is.
pub open spec fn lower(b: u8) -> u8 {
    if 65 <= b && b <= 90 {
        (b + 32) as u8
    } else {
        b
    }
}

/// Equality of byte strings up to the case of ASCII letters.
pub open spec fn same_ignoring_case(a: Seq<u8>, b: Seq<u8>) -> bool {
    &&& a.len() == b.len()
    &&& forall|i: int| 0 <= i < a.len() ==> lower(#[trigger] a[i]) == lower(b[i])
}

/// Whether two byte strings are equal.
pub fn same_bytes(a: &[u8], b: &[u8]) -> (r: bool)
    ensures
        r == (a@ == b@),
{
    if a.len() != b.len() {
        return false;
    }
    let mut i: usize = 0;
    while i < a.len()
        invariant
            i <= a.len(),
            a.len() == b.len(),
            forall|j: int| 0 <= j < i ==> a@[j] == b@[j],
        decreases a.len() - i,
    {
        if a[i] != b[i] {
            return false;
        }
        i += 1;
    }
    assert(a@ =~= b@);
    true
}

/// Whether `s` is exactly the text `t`.
pub fn is_text(s: &[u8], t: &str) -> (r: bool)
    ensures
        r == (s@ == text(t)),
{
    same_bytes(s, t.as_bytes())
}

/// The lower-case form of byte `b`.
pub fn lower_byte(b: u8) -> (r: u8)
    ensures
        r == lower(b),
{
    if 65 <= b && b <= 90 {
        b + 32
    } else {
        b
    }
}

/// Whether two byte strings are equal up to the case of ASCII letters.
pub fn same_ignoring_ascii_case(a: &[u8], b: &[u8]) -> (r: bool)
    ensures
        r == same_ignoring_case(a@, b@),
{
    if a.len() != b.len() {
        return false;
    }
    let mut i: usize = 0;
    while i < a.len()
        invariant
            i <= a.len(),
            a.len() == b.len(),
            forall|j: int| 0 <= j < i ==> lower(#[trigger] a@[j]) == lower(b@[j]),
        decreases a.len() - i,
    {
        if lower_byte(a[i]) != lower_byte(b[i]) {
            return false;
        }
        i += 1;
    }
    true
}

/// Whether `s` begins with `prefix`.
pub fn starts_with(s: &[u8], prefix: &[u8]) -> (r: bool)
    ensures
        r == prefix@.is_prefix_of(s@),
{
    if prefix.len() > s.len() {
        return false;
    }
    same_bytes(&s[0..prefix.len()], prefix)
}

/// Appends the bytes of `s` to `out`.
pub fn append_bytes(out: &mut Vec<u8>, s: &[u8])
    ensures
        final(out)@ == old(out)@ + s@,
{
    out.extend_from_slice(s);
    assert(out@ =~= old(out)@ + s@);
}

/// Appends the text `t` to `out`.
pub fn append_text(out: &mut Vec<u8>, t: &str)
    ensures
        final(out)@ == old(out)@ + text(t),
{
    append_bytes(out, t.as_bytes());
}

/// The text `t` as an owned byte string.
pub fn text_bytes(t: &str) -> (v: Vec<u8>)
    ensures
        v@ == text(t),
{
    to_vec(t.as_bytes())
}

/// Whether `b` is an ASCII decimal digit.
pub open spec fn is_digit(b: u8) -> bool {
    48 <= b && b <= 57
}

/// Whether byte `b` is an ASCII decimal digit.
pub fn is_digit_byte(b: u8) -> (r: bool)
    ensures
        r == is_digit(b),
{
    48 <= b && b <= 57
}

/// Whether every byte of `s` is a decimal digit.
pub open spec fn all_digits(s: Seq<u8>) -> bool {
    forall|i: int| 0 <= i < s.len() ==> is_digit(#[trigger] s[i])
}

/// The number that a digit stands for; 0 for any other byte.
pub open spec fn digit_value(b: u8) -> nat {
    if is_digit(b) {
        (b - 48) as nat
    } else {
        0
    }
}

/// The number that a string of decimal digits stands for.
pub open spec fn digits_value(s: Seq<u8>) -> nat
    decreases s.len(),
{
    if s.len() == 0 {
        0
    } else {
        digits_value(s.drop_last()) * 10 + digit_value(s.last())
    }
}

/// The decimal numeral of `n`, without leading zeros.
pub open spec fn decimal(n: nat) -> Seq<u8>
    decreases n,
{
    if n < 10 {
        seq![(48 + n) as u8]
    } else {
        decimal(n / 10).push((48 + n % 10) as u8)
    }
}

/// What a numeral stands for as a `usize`: it has at least one byte, all its
/// bytes are digits, and its value fits.
pub open spec fn parse_number(s: Seq<u8>) -> Option<usize> {
    if s.len() > 0 && all_digits(s) && digits_value(s) <= usize::MAX {
        Some(digits_value(s) as usize)
    } else {
        None
    }
}

/// The numeral of a number is made of digits and stands for that number.
pub proof fn lemma_decimal_round_trip(n: nat)
    ensures
        decimal(n).len() > 0,
        all_digits(decimal(n)),
        digits_value(decimal(n)) == n,
    decreases n,
{
    if n < 10 {
        let s = decimal(n);
        assert(s.drop_last() =~= Seq::<u8>::empty());
        assert(digits_value(s.drop_last()) == 0);
    } else {
        lemma_decimal_round_trip(n / 10);
        let s = decimal(n);
        assert(s.drop_last() =~= decimal(n / 10));
    }
}

/// A numeral's value is at least that of each of its prefixes.
pub proof fn lemma_digits_value_grows(s: Seq<u8>, k: int)
    requires
        0 <= k <= s.len(),
    ensures
        digits_value(s.take(k)) <= digits_value(s),
    decreases s.len() - k,
{
    if k == s.len() {
        assert(s.take(k) =~= s);
    } else {
        lemma_digits_value_grows(s, k + 1);
        assert(s.take(k + 1).drop_last() =~= s.take(k));
    }
}

/// Appends the decimal numeral of `n` to `out`.
pub fn push_decimal(out: &mut Vec<u8>, n: usize)
    ensures
        final(out)@ == old(out)@ + decimal(n as nat),
    decreases n,
{
    if n >= 10 {
        push_decimal(out, n / 10);
    }
    let digit: u8 = (n % 10) as u8;
    out.push(48 + digit);
    assert(out@ =~= old(out)@ + decimal(n as nat));
}

/// The decimal numeral of `n`.
pub fn to_decimal(n: usize) -> (v: Vec<u8>)
    ensures
        v@ == decimal(n as nat),
{
    let mut v: Vec<u8> = Vec::new();
    push_decimal(&mut v, n);
    assert(v@ =~= decimal(n as nat));
    v
}

/// Reads a decimal numeral. `None` where `s` is empty, holds a byte that is no
/// digit, or stands for a number that does not fit.
pub fn parse_decimal(s: &[u8]) -> (r: Option<usize>)
    ensures
        r == parse_number(s@),
{
    if s.len() == 0 {
        return None;
    }
    let mut value: usize = 0;
    let mut i: usize = 0;
    assert(s@.take(0) =~= Seq::<u8>::empty());
    while i < s.len()
        invariant
            i <= s.len(),
            all_digits(s@.take(i as int)),
            value == digits_value(s@.take(i as int)),
        decreases s.len() - i,
    {
        let b = s[i];
        if !is_digit_byte(b) {
            return None;
        }
        assert(s@.take(i + 1).drop_last() =~= s@.take(i as int));
        proof {
            lemma_digits_value_grows(s@, i + 1);
        }
        let digit: usize = (b - 48) as usize;
        let shifted = match value.checked_mul(10) {
            Some(x) => x,
            None => {
                return None;
            },
        };
        value = match shifted.checked_add(digit) {
            Some(x) => x,
            None => {
                return None;
            },
        };
        i += 1;
    }
    assert(s@.take(s.len() as int) =~= s@);
    Some(value)
}

/// A word: at least one byte, none of them white space.
pub open spec fn is_word(s: Seq<u8>) -> bool {
    &&& s.len() > 0
    &&& forall|i: int| 0 <= i < s.len() ==> !is_space(#[trigger] s[i])
}

/// Whether `s` holds nothing but white space.
pub open spec fn all_spaces(s: Seq<u8>) -> bool {
    forall|i: int| 0 <= i < s.len() ==> is_space(#[trigger] s[i])
}

/// The given words in a row, with a single space between neighbours.
pub open spec fn join_words(ws: Seq<Seq<u8>>) -> Seq<u8>
    decreases ws.len(),
{
    if ws.len() == 0 {
        Seq::empty()
    } else if ws.len() == 1 {
        ws[0]
    } else {
        ws[0] + seq![SPACE] + join_words(ws.skip(1))
    }
}

/// A scan through the second of two joined strings ends where it does in that
/// string alone.
pub proof fn lemma_scan_append(p: Seq<u8>, r: Seq<u8>, from: int, stop: Stop)
    requires
        0 <= from <= r.len(),
    ensures
        scan(p + r, p.len() + from, stop) == p.len() + scan(r, from, stop),
{
    lemma_scan(r, from, stop);
    let i = scan(r, from, stop);
    let s = p + r;
    assert forall|j: int| p.len() + from <= j < p.len() + i implies !stops(
        stop,
        #[trigger] s[j],
    ) by {
        assert(s[j] == r[j - p.len()]);
    }
    if i < r.len() {
        assert(s[p.len() + i] == r[i]);
    }
    lemma_scan_unique(s, p.len() + from, stop, p.len() + i);
}

/// A scan that ends within a string ends at the same place when more bytes
/// follow the string.
pub proof fn lemma_scan_extend(s: Seq<u8>, t: Seq<u8>, from: int, stop: Stop)
    requires
        0 <= from <= s.len(),
        scan(s, from, stop) < s.len(),
    ensures
        scan(s + t, from, stop) == scan(s, from, stop),
{
    lemma_scan(s, from, stop);
    let i = scan(s, from, stop);
    let u = s + t;
    assert forall|j: int| from <= j < i implies !stops(stop, #[trigger] u[j]) by {
        assert(u[j] == s[j]);
    }
    assert(u[i] == s[i]);
    lemma_scan_unique(u, from, stop, i);
}

/// The words of the second of two joined strings are those of that string
/// alone.
pub proof fn lemma_words_from_append(p: Seq<u8>, r: Seq<u8>, from: int)
    requires
        0 <= from <= r.len(),
    ensures
        words_from(p + r, p.len() + from) == words_from(r, from),
    decreases r.len() - from,
{
    let a = scan(r, from, Stop::NonSpace);
    lemma_scan(r, from, Stop::NonSpace);
    lemma_scan_append(p, r, from, Stop::NonSpace);
    let b = scan(r, a, Stop::Space);
    lemma_scan(r, a, Stop::Space);
    lemma_scan_append(p, r, a, Stop::Space);
    if a < b {
        lemma_words_from_append(p, r, b);
        assert((p + r).subrange(p.len() + a, p.len() + b) =~= r.subrange(a, b));
    }
}

/// White space at the start of a string adds no word.
pub proof fn lemma_words_leading_spaces(spaces: Seq<u8>, r: Seq<u8>)
    requires
        all_spaces(spaces),
    ensures
        words(spaces + r) == words(r),
{
    let s = spaces + r;
    let a = scan(r, 0, Stop::NonSpace);
    lemma_scan(r, 0, Stop::NonSpace);
    assert forall|j: int| 0 <= j < spaces.len() + a implies !stops(
        Stop::NonSpace,
        #[trigger] s[j],
    ) by {
        if j < spaces.len() {
            assert(s[j] == spaces[j]);
        } else {
            assert(s[j] == r[j - spaces.len()]);
        }
    }
    if a < r.len() {
        assert(s[spaces.len() + a] == r[a]);
    }
    lemma_scan_unique(s, 0, Stop::NonSpace, spaces.len() + a);
    let b = scan(r, a, Stop::Space);
    lemma_scan(r, a, Stop::Space);
    lemma_scan_append(spaces, r, a, Stop::Space);
    if a < b {
        lemma_words_from_append(spaces, r, b);
        assert(s.subrange(spaces.len() + a, spaces.len() + b) =~= r.subrange(a, b));
    }
}

/// A word at the start of a string, with white space or nothing after it, is
/// the string's first word.
pub proof fn lemma_words_leading_word(w: Seq<u8>, r: Seq<u8>)
    requires
        is_word(w),
        r.len() == 0 || is_space(r[0]),
    ensures
        words(w + r) == seq![w] + words(r),
{
    let s = w + r;
    assert(s[0] == w[0]);
    lemma_scan_unique(s, 0, Stop::NonSpace, 0);
    assert forall|j: int| 0 <= j < w.len() implies !stops(Stop::Space, #[trigger] s[j]) by {
        assert(s[j] == w[j]);
    }
    if r.len() > 0 {
        assert(s[w.len() as int] == r[0]);
    }
    lemma_scan_unique(s, 0, Stop::Space, w.len() as int);
    lemma_words_from_append(w, r, 0);
    assert(s.subrange(0, w.len() as int) =~= w);
}

/// A string of white space has no words.
pub proof fn lemma_words_of_spaces(spaces: Seq<u8>)
    requires
        all_spaces(spaces),
    ensures
        words(spaces) == Seq::<Seq<u8>>::empty(),
{
    lemma_words_leading_spaces(spaces, Seq::empty());
    assert(spaces + Seq::<u8>::empty() =~= spaces);
    assert(words(Seq::<u8>::empty()) =~= Seq::<Seq<u8>>::empty());
}

/// Words joined by single spaces, with white space or nothing after them,
/// are cut into the same words again.
pub proof fn lemma_words_of_joined(ws: Seq<Seq<u8>>, tail: Seq<u8>)
    requires
        forall|i: int| 0 <= i < ws.len() ==> is_word(#[trigger] ws[i]),
        all_spaces(tail),
    ensures
        words(join_words(ws) + tail) == ws,
    decreases ws.len(),
{
    if ws.len() == 0 {
        assert(join_words(ws) + tail =~= tail);
        lemma_words_of_spaces(tail);
        assert(ws =~= Seq::<Seq<u8>>::empty());
    } else if ws.len() == 1 {
        lemma_words_leading_word(ws[0], tail);
        lemma_words_of_spaces(tail);
        assert(seq![ws[0]] + Seq::<Seq<u8>>::empty() =~= ws);
    } else {
        let rest = ws.skip(1);
        let space = seq![SPACE];
        assert forall|i: int| 0 <= i < rest.len() implies is_word(#[trigger] rest[i]) by {
            assert(rest[i] == ws[i + 1]);
        }
        lemma_words_of_joined(rest, tail);
        lemma_words_leading_spaces(space, join_words(rest) + tail);
        assert(join_words(ws) + tail =~= ws[0] + (space + (join_words(rest) + tail)));
        assert((space + (join_words(rest) + tail))[0] == SPACE);
        lemma_words_leading_word(ws[0], space + (join_words(rest) + tail));
        assert(seq![ws[0]] + rest =~= ws);
    }
}

/// Joined words hold no white space but the single spaces between them.
pub proof fn lemma_joined_spaces(ws: Seq<Seq<u8>>)
    requires
        forall|i: int| 0 <= i < ws.len() ==> is_word(#[trigger] ws[i]),
    ensures
        forall|i: int|
            0 <= i < join_words(ws).len() ==> (#[trigger] join_words(ws)[i]) == SPACE || !is_space(
                join_words(ws)[i],
            ),
    decreases ws.len(),
{
    if ws.len() >= 2 {
        let rest = ws.skip(1);
        assert forall|i: int| 0 <= i < rest.len() implies is_word(#[trigger] rest[i]) by {
            assert(rest[i] == ws[i + 1]);
        }
        lemma_joined_spaces(rest);
        let j = join_words(ws);
        assert forall|i: int| 0 <= i < j.len() implies (#[trigger] j[i]) == SPACE || !is_space(
            j[i],
        ) by {
            if i < ws[0].len() {
                assert(j[i] == ws[0][i]);
            } else if i == ws[0].len() {
                assert(j[i] == SPACE);
            } else {
                assert(j[i] == join_words(rest)[i - ws[0].len() - 1]);
            }
        }
    }
}

} // verus!
