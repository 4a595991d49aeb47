//! Plain text as sequences of characters: trimming, splitting, decimal digits,
//! and the lexicographic order that tickers are sorted by.
use vstd::prelude::*;
use vstd::slice::slice_subrange;

verus! {

// ---------------------------------------------------------------------------
// Model
// ---------------------------------------------------------------------------

/// Unicode `White_Space`, the class that trimming removes.
pub open spec fn is_space(c: char) -> bool {
    ||| 0x09 <= c as u32 <= 0x0d
    ||| c as u32 == 0x20
    ||| c as u32 == 0x85
    ||| c as u32 == 0xa0
    ||| c as u32 == 0x1680
    ||| 0x2000 <= c as u32 <= 0x200a
    ||| c as u32 == 0x2028
    ||| c as u32 == 0x2029
    ||| c as u32 == 0x202f
    ||| c as u32 == 0x205f
    ||| c as u32 == 0x3000
}

pub open spec fn trim_front(s: Seq<char>) -> Seq<char>
    decreases s.len(),
{
    if s.len() > 0 && is_space(s[0]) {
        trim_front(s.subrange(1, s.len() as int))
    } else {
        s
    }
}

pub open spec fn trim_back(s: Seq<char>) -> Seq<char>
    decreases s.len(),
{
    if s.len() > 0 && is_space(s.last()) {
        trim_back(s.drop_last())
    } else {
        s
    }
}

/// The text without the white space around it.
pub open spec fn trimmed(s: Seq<char>) -> Seq<char> {
    trim_back(trim_front(s))
}

/// Where `c` first stands in `s`; the length of `s` where it does not.
pub open spec fn first_index(s: Seq<char>, c: char) -> int
    decreases s.len(),
{
    if s.len() == 0 || s[0] == c {
        0
    } else {
        1 + first_index(s.subrange(1, s.len() as int), c)
    }
}

/// The text before and after the first `c`.
pub open spec fn split_once(s: Seq<char>, c: char) -> Option<(Seq<char>, Seq<char>)> {
    let i = first_index(s, c);
    if i < s.len() {
        Some((s.subrange(0, i), s.subrange(i + 1, s.len() as int)))
    } else {
        None
    }
}

pub open spec fn is_digit(c: char) -> bool {
    '0' <= c <= '9'
}

pub open spec fn all_digits(s: Seq<char>) -> bool {
    forall|i: int| 0 <= i < s.len() ==> is_digit(#[trigger] s[i])
}

pub open spec fn digit_value(c: char) -> int {
    c as u32 - '0' as u32
}

/// The number that a run of decimal digits writes; zero for no digits.
pub open spec fn number(s: Seq<char>) -> int
    decreases s.len(),
{
    if s.len() == 0 {
        0
    } else {
        number(s.drop_last()) * 10 + digit_value(s.last())
    }
}

pub open spec fn digit_char(d: int) -> char {
    if d == 0 { '0' } else if d == 1 { '1' } else if d == 2 { '2' } else if d == 3 { '3' }
    else if d == 4 { '4' } else if d == 5 { '5' } else if d == 6 { '6' } else if d == 7 { '7' }
    else if d == 8 { '8' } else { '9' }
}

/// The number that a text writes for an unsigned machine integer: digits, with
/// or without a plus sign before them.
pub open spec fn unsigned(s: Seq<char>, max: int) -> Option<int> {
    let digits = if s.len() > 0 && s[0] == '+' {
        s.subrange(1, s.len() as int)
    } else {
        s
    };
    if digits.len() > 0 && all_digits(digits) && number(digits) <= max {
        Some(number(digits))
    } else {
        None
    }
}

/// A natural number in decimal, without leading zeros.
pub open spec fn decimal(n: nat) -> Seq<char>
    decreases n,
{
    if n < 10 {
        seq![digit_char(n as int)]
    } else {
        decimal(n / 10).push(digit_char((n % 10) as int))
    }
}

/// An integer in decimal, with a leading `-` where it is negative.
pub open spec fn signed_decimal(n: int) -> Seq<char> {
    if n < 0 {
        seq!['-'] + decimal((-n) as nat)
    } else {
        decimal(n as nat)
    }
}

/// Strict lexicographic order by code point, which is how `str` compares.
pub open spec fn precedes(a: Seq<char>, b: Seq<char>) -> bool
    decreases a.len(),
{
    if b.len() == 0 {
        false
    } else if a.len() == 0 {
        true
    } else if a[0] == b[0] {
        precedes(a.subrange(1, a.len() as int), b.subrange(1, b.len() as int))
    } else {
        a[0] < b[0]
    }
}

pub open spec fn starts_with(s: Seq<char>, p: Seq<char>) -> bool {
    p.len() <= s.len() && s.subrange(0, p.len() as int) == p
}

/// The contents of an optional string.
pub open spec fn optional(text: Option<String>) -> Option<Seq<char>> {
    match text {
        Some(text) => Some(text@),
        None => None,
    }
}

/// What each of a list of strings says.
pub open spec fn views(strings: Seq<String>) -> Seq<Seq<char>> {
    strings.map_values(|s: String| s@)
}

/// The runs of characters between white space.
pub open spec fn words(s: Seq<char>) -> Seq<Seq<char>>
    decreases s.len(),
{
    if s.len() == 0 {
        Seq::empty()
    } else {
        let before = words(s.drop_last());
        if is_space(s.last()) {
            before
        } else if s.len() >= 2 && !is_space(s[s.len() - 2]) {
            before.drop_last().push(before.last().push(s.last()))
        } else {
            before.push(seq![s.last()])
        }
    }
}

/// A line without the carriage return that stood before its line feed.
pub open spec fn without_return(line: Seq<char>) -> Seq<char> {
    if line.len() > 0 && line.last() == '\r' {
        line.drop_last()
    } else {
        line
    }
}

/// The lines of a text, without the line feed, or the carriage return and line
/// feed, that ends each. A text that ends in a line feed has no line after it.
pub open spec fn lines(s: Seq<char>) -> Seq<Seq<char>>
    decreases s.len(),
{
    if s.len() == 0 {
        Seq::empty()
    } else {
        let before = lines(s.drop_last());
        let starts = s.len() == 1 || s[s.len() - 2] == '\n';
        if s.last() == '\n' {
            if starts {
                before.push(Seq::empty())
            } else {
                before.drop_last().push(without_return(before.last()))
            }
        } else if starts {
            before.push(seq![s.last()])
        } else {
            before.drop_last().push(before.last().push(s.last()))
        }
    }
}

/// Where `c` last stands in `s`; -1 where it does not.
pub open spec fn last_index(s: Seq<char>, c: char) -> int
    decreases s.len(),
{
    if s.len() == 0 {
        -1
    } else if s.last() == c {
        s.len() - 1
    } else {
        last_index(s.drop_last(), c)
    }
}

/// ASCII capitals made small, every other character as it was.
pub open spec fn lower(c: char) -> char {
    if 'A' <= c <= 'Z' {
        ((c as u8) + 32) as char
    } else {
        c
    }
}

pub open spec fn lowered(s: Seq<char>) -> Seq<char> {
    s.map_values(|c: char| lower(c))
}

pub open spec fn is_hex_digit(c: char) -> bool {
    is_digit(c) || 'a' <= c <= 'f' || 'A' <= c <= 'F'
}

pub open spec fn hex_char(d: int) -> char {
    if d < 10 {
        digit_char(d)
    } else if d == 10 { 'a' } else if d == 11 { 'b' } else if d == 12 { 'c' } else if d == 13 { 'd' }
    else if d == 14 { 'e' } else { 'f' }
}

/// Bytes as pairs of small hexadecimal digits.
pub open spec fn hex(bytes: Seq<u8>) -> Seq<char>
    decreases bytes.len(),
{
    if bytes.len() == 0 {
        Seq::empty()
    } else {
        hex(bytes.drop_last()).push(hex_char(bytes.last() as int / 16)).push(
            hex_char(bytes.last() as int % 16),
        )
    }
}


// ---------------------------------------------------------------------------
// Lemmas
// ---------------------------------------------------------------------------

pub proof fn lemma_first_index(s: Seq<char>, c: char)
    ensures
        0 <= first_index(s, c) <= s.len(),
        first_index(s, c) < s.len() ==> s[first_index(s, c)] == c,
        forall|j: int| 0 <= j < first_index(s, c) ==> #[trigger] s[j] != c,
        s.contains(c) <==> first_index(s, c) < s.len(),
    decreases s.len(),
{
    if s.len() == 0 || s[0] == c {
    } else {
        let rest = s.subrange(1, s.len() as int);
        lemma_first_index(rest, c);
        assert forall|j: int| 0 <= j < first_index(s, c) implies #[trigger] s[j] != c by {
            if j > 0 {
                assert(rest[j - 1] == s[j]);
            }
        }
        if s.contains(c) {
            let k = choose|k: int| 0 <= k < s.len() && s[k] == c;
            assert(rest[k - 1] == c);
        }
    }
}

/// The first index is the only place with `c` in it and no `c` before it.
pub proof fn lemma_first_index_unique(s: Seq<char>, c: char, i: int)
    requires
        0 <= i <= s.len(),
        i < s.len() ==> s[i] == c,
        forall|j: int| 0 <= j < i ==> #[trigger] s[j] != c,
    ensures
        first_index(s, c) == i,
{
    lemma_first_index(s, c);
}

pub proof fn lemma_number_bounds(s: Seq<char>)
    requires
        all_digits(s),
    ensures
        number(s) >= 0,
    decreases s.len(),
{
    if s.len() > 0 {
        assert(is_digit(s.last()));
        assert forall|i: int| 0 <= i < s.drop_last().len() implies is_digit(
            #[trigger] s.drop_last()[i],
        ) by {
            assert(s.drop_last()[i] == s[i]);
        }
        lemma_number_bounds(s.drop_last());
    }
}

/// More digits never make the number smaller.
pub proof fn lemma_number_prefix(s: Seq<char>, i: int)
    requires
        all_digits(s),
        0 <= i <= s.len(),
    ensures
        0 <= number(s.subrange(0, i)) <= number(s),
    decreases s.len(),
{
    assert forall|j: int| 0 <= j < i implies is_digit(#[trigger] s.subrange(0, i)[j]) by {
        assert(s.subrange(0, i)[j] == s[j]);
    }
    lemma_number_bounds(s.subrange(0, i));
    if i == s.len() {
        assert(s.subrange(0, i) =~= s);
    } else {
        let front = s.drop_last();
        assert forall|j: int| 0 <= j < front.len() implies is_digit(#[trigger] front[j]) by {
            assert(front[j] == s[j]);
        }
        lemma_number_prefix(front, i);
        assert(front.subrange(0, i) =~= s.subrange(0, i));
        assert(is_digit(s.last()));
    }
}

pub proof fn lemma_digit_char(d: int)
    requires
        0 <= d <= 9,
    ensures
        is_digit(digit_char(d)),
        digit_value(digit_char(d)) == d,
{
}

/// What [`decimal`] writes is read back by [`number`].
pub proof fn a_written_number_reads_back(n: nat)
    ensures
        decimal(n).len() > 0,
        all_digits(decimal(n)),
        number(decimal(n)) == n,
    decreases n,
{
    if n < 10 {
        lemma_digit_char(n as int);
        let s = decimal(n);
        assert(s.drop_last() =~= Seq::<char>::empty());
        assert(number(s.drop_last()) == 0);
    } else {
        a_written_number_reads_back(n / 10);
        lemma_digit_char((n % 10) as int);
        let s = decimal(n);
        assert(s.drop_last() =~= decimal(n / 10));
        assert forall|i: int| 0 <= i < s.len() implies is_digit(#[trigger] s[i]) by {
            if i < s.len() - 1 {
                assert(s[i] == decimal(n / 10)[i]);
            }
        }
    }
}

/// The order is irreflexive and asymmetric.
pub proof fn lemma_precedes_asymmetric(a: Seq<char>, b: Seq<char>)
    ensures
        !precedes(a, a),
        precedes(a, b) ==> !precedes(b, a),
    decreases a.len(),
{
    if a.len() > 0 {
        lemma_precedes_asymmetric(
            a.subrange(1, a.len() as int),
            if b.len() > 0 { b.subrange(1, b.len() as int) } else { b },
        );
    }
}

pub proof fn lemma_precedes_transitive(a: Seq<char>, b: Seq<char>, c: Seq<char>)
    requires
        precedes(a, b),
        precedes(b, c),
    ensures
        precedes(a, c),
    decreases a.len(),
{
    if a.len() > 0 && a[0] == b[0] && b[0] == c[0] {
        lemma_precedes_transitive(
            a.subrange(1, a.len() as int),
            b.subrange(1, b.len() as int),
            c.subrange(1, c.len() as int),
        );
    }
}

/// Two texts that neither precedes the other are the same text.
pub proof fn lemma_precedes_total(a: Seq<char>, b: Seq<char>)
    ensures
        precedes(a, b) || precedes(b, a) || a == b,
    decreases a.len(),
{
    if a.len() > 0 && b.len() > 0 && a[0] == b[0] {
        let ra = a.subrange(1, a.len() as int);
        let rb = b.subrange(1, b.len() as int);
        lemma_precedes_total(ra, rb);
        if ra == rb {
            assert(a =~= seq![a[0]] + ra);
            assert(b =~= seq![b[0]] + rb);
        }
    } else if a.len() == 0 && b.len() == 0 {
        assert(a =~= b);
    }
}

/// White space separates words: what stands before it and after it are split
/// on their own.
pub proof fn lemma_words_split(a: Seq<char>, c: char, b: Seq<char>)
    requires
        is_space(c),
    ensures
        words(a.push(c) + b) == words(a) + words(b),
    decreases b.len(),
{
    let s = a.push(c) + b;
    if b.len() == 0 {
        assert(s =~= a.push(c));
        assert(s.drop_last() =~= a);
        assert(words(a) + words(b) =~= words(a));
    } else {
        lemma_words_split(a, c, b.drop_last());
        let front = a.push(c) + b.drop_last();
        assert(s.drop_last() =~= front);
        if b.len() >= 2 {
            assert(s[s.len() - 2] == b[b.len() - 2]);
            if !is_space(b[b.len() - 2]) {
                lemma_words_open(b.drop_last());
            }
        } else {
            assert(s[s.len() - 2] == c);
        }
        let x = words(a);
        let y = words(b.drop_last());
        if !is_space(b.last()) && b.len() >= 2 && !is_space(b[b.len() - 2]) {
            assert((x + y).drop_last() =~= x + y.drop_last());
            assert((x + y).last() == y.last());
            assert(x + words(b) =~= words(s));
        } else if !is_space(b.last()) {
            assert(x + words(b) =~= words(s));
        }
    }
}

proof fn lemma_words_open(s: Seq<char>)
    requires
        s.len() > 0,
        !is_space(s.last()),
    ensures
        words(s).len() > 0,
{
}

/// A run of characters without white space is one word.
pub proof fn lemma_one_word(w: Seq<char>)
    requires
        w.len() > 0,
        forall|i: int| 0 <= i < w.len() ==> !is_space(#[trigger] w[i]),
    ensures
        words(w) == seq![w],
    decreases w.len(),
{
    if w.len() > 1 {
        lemma_one_word(w.drop_last());
        assert(words(w) =~= seq![w.drop_last().push(w.last())]);
        assert(w.drop_last().push(w.last()) =~= w);
    } else {
        assert(words(w.drop_last()) =~= Seq::<Seq<char>>::empty());
        assert(words(w) =~= seq![seq![w.last()]]);
        assert(seq![w.last()] =~= w);
    }
}

/// A line feed separates lines: the first line is what stands before it, and
/// what stands after it is split on its own.
pub proof fn lemma_lines_split(a: Seq<char>, b: Seq<char>)
    requires
        !a.contains('\n'),
    ensures
        lines(a.push('\n') + b) == seq![without_return(a)] + lines(b),
    decreases b.len(),
{
    let s = a.push('\n') + b;
    let first = seq![without_return(a)];
    if b.len() == 0 {
        assert(s =~= a.push('\n'));
        assert(s.drop_last() =~= a);
        lemma_one_line(a);
        assert(first + lines(b) =~= first);
        if a.len() > 0 {
            assert(a.last() != '\n');
            assert(s[s.len() - 2] == a.last());
            assert(lines(a).drop_last() =~= Seq::<Seq<char>>::empty());
            assert(lines(a).last() == a);
        } else {
            assert(a =~= Seq::<char>::empty());
        }
        assert(lines(s) =~= first);
    } else {
        lemma_lines_split(a, b.drop_last());
        assert(s.drop_last() =~= a.push('\n') + b.drop_last());
        let y = lines(b.drop_last());
        if b.len() >= 2 {
            assert(s[s.len() - 2] == b[b.len() - 2]);
            lemma_lines_open(b.drop_last());
            assert((first + y).drop_last() =~= first + y.drop_last());
            assert((first + y).last() == y.last());
        } else {
            assert(s[s.len() - 2] == '\n');
        }
        assert(first + lines(b) =~= lines(s));
    }
}

proof fn lemma_lines_open(s: Seq<char>)
    requires
        s.len() > 0,
    ensures
        lines(s).len() > 0,
    decreases s.len(),
{
    if s.len() > 1 {
        lemma_lines_open(s.drop_last());
    }
}

/// A text without a line feed is one line, or none where it is empty.
pub proof fn lemma_one_line(a: Seq<char>)
    requires
        !a.contains('\n'),
    ensures
        lines(a) == (if a.len() == 0 {
            Seq::empty()
        } else {
            seq![a]
        }),
    decreases a.len(),
{
    if a.len() > 0 {
        assert(!a.drop_last().contains('\n')) by {
            assert forall|i: int| 0 <= i < a.len() - 1 implies a.drop_last()[i] != '\n' by {
                assert(a[i] == a.drop_last()[i]);
            }
        }
        lemma_one_line(a.drop_last());
        assert(a.last() != '\n');
        if a.len() > 1 {
            assert(a[a.len() - 2] != '\n');
            assert(lines(a) =~= seq![a.drop_last().push(a.last())]);
            assert(a.drop_last().push(a.last()) =~= a);
        } else {
            assert(lines(a) =~= seq![seq![a.last()]]);
            assert(seq![a.last()] =~= a);
        }
    }
}

/// Hexadecimal text has two characters a byte, each a small hexadecimal digit.
pub proof fn lemma_hex(bytes: Seq<u8>)
    ensures
        hex(bytes).len() == 2 * bytes.len(),
        forall|i: int| 0 <= i < hex(bytes).len() ==> is_hex_digit(#[trigger] hex(bytes)[i])
            && lower(hex(bytes)[i]) == hex(bytes)[i] && !is_space(hex(bytes)[i]),
    decreases bytes.len(),
{
    if bytes.len() > 0 {
        lemma_hex(bytes.drop_last());
        let before = hex(bytes.drop_last());
        assert forall|i: int| 0 <= i < hex(bytes).len() implies is_hex_digit(
            #[trigger] hex(bytes)[i],
        ) && lower(hex(bytes)[i]) == hex(bytes)[i] && !is_space(hex(bytes)[i]) by {
            if i < before.len() {
                assert(hex(bytes)[i] == before[i]);
            }
        }
    }
}

/// Text without white space around it is what trimming leaves.
pub proof fn lemma_trimmed(s: Seq<char>)
    requires
        s.len() > 0 ==> !is_space(s[0]) && !is_space(s.last()),
    ensures
        trimmed(s) == s,
{
}

// ---------------------------------------------------------------------------
// Trusted standard-library items
// ---------------------------------------------------------------------------

/// `String::push` appends exactly one character.
pub assume_specification[ String::push ](s: &mut String, c: char)
    ensures
        final(s)@ == old(s)@.push(c),
;

/// What the `Debug` format of a `str` shows: the text in double quotes, with
/// what a reader could not tell apart escaped.
pub uninterp spec fn debug_text(s: Seq<char>) -> Seq<char>;

/// The `Debug` format of a `str`, which depends on the text alone.
#[verifier::external_body]
pub(crate) fn quoted(s: &str) -> (out: String)
    ensures
        out@ == debug_text(s@),
{
    format!("{:?}", s)
}

// ---------------------------------------------------------------------------
// Functions
// ---------------------------------------------------------------------------

/// The characters of `s`, in order.
pub fn chars(s: &str) -> (v: Vec<char>)
    ensures
        v@ == s@,
{
    let mut v: Vec<char> = Vec::new();
    for c in it: s.chars()
        invariant
            v@ == s@.subrange(0, it.index() as int),
            it.seq() == s@,
    {
        proof {
            assert(s@.subrange(0, it.index() as int + 1) =~= s@.subrange(0, it.index() as int).push(
                s@[it.index() as int],
            ));
        }
        v.push(c);
    }
    assert(s@.subrange(0, s@.len() as int) =~= s@);
    v
}

/// Whether two texts are the same, character for character.
pub(crate) fn same(a: &str, b: &str) -> (r: bool)
    ensures
        r == (a@ == b@),
{
    let left: Vec<char> = chars(a);
    let right: Vec<char> = chars(b);
    if left.len() != right.len() {
        return false;
    }
    let mut i: usize = 0;
    while i < left.len()
        invariant
            i <= left@.len(),
            left@ == a@,
            right@ == b@,
            left@.len() == right@.len(),
            forall|k: int| 0 <= k < i ==> #[trigger] left@[k] == right@[k],
        decreases left@.len() - i,
    {
        if left[i] != right[i] {
            assert(left@[i as int] != right@[i as int]);
            return false;
        }
        i = i + 1;
    }
    assert(left@ =~= right@);
    true
}

/// Whether `c` is white space.
pub fn white(c: char) -> (r: bool)
    ensures
        r == is_space(c),
{
    let n: u32 = c as u32;
    (0x09 <= n && n <= 0x0d) || n == 0x20 || n == 0x85 || n == 0xa0 || n == 0x1680 || (0x2000 <= n
        && n <= 0x200a) || n == 0x2028 || n == 0x2029 || n == 0x202f || n == 0x205f || n == 0x3000
}

/// `s` without the white space around it.
pub fn trim(s: &[char]) -> (t: &[char])
    ensures
        t@ == trimmed(s@),
{
    let n: usize = s.len();
    let mut from: usize = 0;
    assert(s@.subrange(0, n as int) =~= s@);
    while from < n && white(s[from])
        invariant
            from <= n,
            n == s@.len(),
            trim_front(s@.subrange(from as int, n as int)) == trim_front(s@),
        decreases n - from,
    {
        assert(s@.subrange(from as int, n as int).subrange(1, n - from) =~= s@.subrange(
            from + 1,
            n as int,
        ));
        from = from + 1;
    }
    let ghost front = s@.subrange(from as int, n as int);
    assert(trim_front(s@) == front);
    let mut to: usize = n;
    assert(front.subrange(0, n - from) =~= front);
    while to > from && white(s[to - 1])
        invariant
            from <= to <= n,
            n == s@.len(),
            front == s@.subrange(from as int, n as int),
            trim_back(front.subrange(0, to - from)) == trim_back(front),
        decreases to,
    {
        assert(front.subrange(0, to - from).drop_last() =~= front.subrange(0, to - from - 1));
        to = to - 1;
    }
    assert(front.subrange(0, to - from) =~= s@.subrange(from as int, to as int));
    slice_subrange(s, from, to)
}

/// Where `c` first stands in `s`; the length of `s` where it does not.
pub fn find(s: &[char], c: char) -> (i: usize)
    ensures
        i == first_index(s@, c),
        i <= s@.len(),
{
    let mut i: usize = 0;
    while i < s.len() && s[i] != c
        invariant
            i <= s@.len(),
            forall|j: int| 0 <= j < i ==> #[trigger] s@[j] != c,
        decreases s@.len() - i,
    {
        i = i + 1;
    }
    proof {
        lemma_first_index_unique(s@, c, i as int);
    }
    i
}

/// Whether every character is a decimal digit.
pub fn digits(s: &[char]) -> (r: bool)
    ensures
        r == all_digits(s@),
{
    let mut i: usize = 0;
    while i < s.len()
        invariant
            i <= s@.len(),
            forall|j: int| 0 <= j < i ==> is_digit(#[trigger] s@[j]),
        decreases s@.len() - i,
    {
        if !('0' <= s[i] && s[i] <= '9') {
            assert(!is_digit(s@[i as int]));
            return false;
        }
        i = i + 1;
    }
    true
}

/// Reads a run of decimal digits, or `None` where the number is over `max`.
pub fn parse_number(s: &[char], max: u128) -> (r: Option<u128>)
    requires
        all_digits(s@),
        max <= u128::MAX / 16,
    ensures
        match r {
            Some(n) => n == number(s@) && n <= max,
            None => number(s@) > max,
        },
{
    let mut n: u128 = 0;
    let mut i: usize = 0;
    assert(s@.subrange(0, 0) =~= Seq::<char>::empty());
    while i < s.len()
        invariant
            i <= s@.len(),
            all_digits(s@),
            n == number(s@.subrange(0, i as int)),
            n <= max <= u128::MAX / 16,
        decreases s@.len() - i,
    {
        let c: char = s[i];
        assert(is_digit(s@[i as int]));
        assert(s@.subrange(0, i + 1).drop_last() =~= s@.subrange(0, i as int));
        assert(number(s@.subrange(0, i + 1)) == n * 10 + digit_value(c));
        let next: u128 = n * 10 + (c as u32 - '0' as u32) as u128;
        if next > max {
            proof {
                lemma_number_prefix(s@, i + 1);
            }
            return None;
        }
        n = next;
        i = i + 1;
    }
    assert(s@.subrange(0, s@.len() as int) =~= s@);
    Some(n)
}

/// The decimal digit of `d`.
pub fn digit(d: u64) -> (c: char)
    requires
        d <= 9,
    ensures
        c == digit_char(d as int),
{
    match d {
        0 => '0',
        1 => '1',
        2 => '2',
        3 => '3',
        4 => '4',
        5 => '5',
        6 => '6',
        7 => '7',
        8 => '8',
        _ => '9',
    }
}

/// Appends `n` in decimal.
pub fn push_u64(out: &mut String, n: u64)
    ensures
        final(out)@ == old(out)@ + decimal(n as nat),
    decreases n,
{
    if n >= 10 {
        push_u64(out, n / 10);
        out.push(digit(n % 10));
        assert(out@ =~= old(out)@ + decimal(n as nat));
    } else {
        out.push(digit(n));
        assert(out@ =~= old(out)@ + decimal(n as nat));
    }
}

/// Appends `n` in decimal, with a leading `-` where it is negative.
pub fn push_i64(out: &mut String, n: i64)
    ensures
        final(out)@ == old(out)@ + signed_decimal(n as int),
{
    if n < 0 {
        out.push('-');
        let magnitude: u64 = if n == i64::MIN {
            9_223_372_036_854_775_808
        } else {
            (-n) as u64
        };
        push_u64(out, magnitude);
        assert(out@ =~= old(out)@ + signed_decimal(n as int));
    } else {
        push_u64(out, n as u64);
    }
}

/// Whether `a` strictly precedes `b`.
pub fn less(a: &[char], b: &[char]) -> (r: bool)
    ensures
        r == precedes(a@, b@),
{
    let mut i: usize = 0;
    assert(a@.subrange(0, a@.len() as int) =~= a@);
    assert(b@.subrange(0, b@.len() as int) =~= b@);
    while i < a.len() && i < b.len() && a[i] == b[i]
        invariant
            i <= a@.len(),
            i <= b@.len(),
            precedes(a@, b@) == precedes(
                a@.subrange(i as int, a@.len() as int),
                b@.subrange(i as int, b@.len() as int),
            ),
        decreases a@.len() - i,
    {
        let ghost ra = a@.subrange(i as int, a@.len() as int);
        let ghost rb = b@.subrange(i as int, b@.len() as int);
        assert(ra.subrange(1, ra.len() as int) =~= a@.subrange(i + 1, a@.len() as int));
        assert(rb.subrange(1, rb.len() as int) =~= b@.subrange(i + 1, b@.len() as int));
        i = i + 1;
    }
    if i == b.len() {
        false
    } else if i == a.len() {
        true
    } else {
        a[i] < b[i]
    }
}

/// Whether the text of `a` strictly precedes that of `b`.
pub fn str_less(a: &str, b: &str) -> (r: bool)
    ensures
        r == precedes(a@, b@),
{
    let x: Vec<char> = chars(a);
    let y: Vec<char> = chars(b);
    less(x.as_slice(), y.as_slice())
}

/// Whether `s` begins with `p`.
pub fn has_prefix(s: &str, p: &str) -> (r: bool)
    ensures
        r == starts_with(s@, p@),
{
    let x: Vec<char> = chars(s);
    let y: Vec<char> = chars(p);
    if y.len() > x.len() {
        return false;
    }
    let mut i: usize = 0;
    while i < y.len()
        invariant
            i <= y@.len() <= x@.len(),
            x@ == s@,
            y@ == p@,
            forall|j: int| 0 <= j < i ==> x@[j] == y@[j],
        decreases y@.len() - i,
    {
        if x[i] != y[i] {
            assert(s@.subrange(0, p@.len() as int)[i as int] != p@[i as int]);
            return false;
        }
        i = i + 1;
    }
    assert(s@.subrange(0, p@.len() as int) =~= p@);
    true
}

/// Copies a run of characters into a `String`.
pub fn collect(s: &[char]) -> (out: String)
    ensures
        out@ == s@,
{
    let mut out: String = String::new();
    let mut i: usize = 0;
    while i < s.len()
        invariant
            i <= s@.len(),
            out@ == s@.subrange(0, i as int),
        decreases s@.len() - i,
    {
        out.push(s[i]);
        i = i + 1;
        assert(out@ =~= s@.subrange(0, i as int));
    }
    assert(s@.subrange(0, s@.len() as int) =~= s@);
    out
}

/// The words of `s`: what stands between its white space.
pub fn split_words(s: &str) -> (out: Vec<String>)
    ensures
        views(out@) == words(s@),
{
    let all: Vec<char> = chars(s);
    let mut out: Vec<String> = Vec::new();
    let mut word: String = String::new();
    let mut within: bool = false;
    let mut i: usize = 0;
    assert(all@.subrange(0, 0) =~= Seq::<char>::empty());
    assert(views(out@) =~= Seq::<Seq<char>>::empty());
    while i < all.len()
        invariant
            i <= all@.len(),
            within == (i > 0 && !is_space(all@[i - 1])),
            words(all@.subrange(0, i as int)) == (if within {
                views(out@).push(word@)
            } else {
                views(out@)
            }),
            !within ==> word@ == Seq::<char>::empty(),
        decreases all@.len() - i,
    {
        let c: char = all[i];
        let ghost now = all@.subrange(0, i + 1);
        let ghost before = views(out@);
        assert(now.drop_last() =~= all@.subrange(0, i as int));
        if white(c) {
            if within {
                out.push(word);
                word = String::new();
                assert(views(out@) =~= words(now.drop_last()));
            }
            within = false;
        } else {
            word.push(c);
            if !within {
                assert(word@ =~= seq![c]);
            } else {
                assert(words(now.drop_last()).drop_last() =~= before);
            }
            within = true;
        }
        i = i + 1;
    }
    assert(all@.subrange(0, all@.len() as int) =~= s@);
    if within {
        let ghost before = views(out@);
        out.push(word);
        assert(views(out@) =~= words(s@));
    }
    out
}

/// The lines of `s`.
pub fn split_lines(s: &str) -> (out: Vec<String>)
    ensures
        views(out@) == lines(s@),
{
    let all: Vec<char> = chars(s);
    let mut out: Vec<String> = Vec::new();
    let mut line: Vec<char> = Vec::new();
    let mut i: usize = 0;
    assert(all@.subrange(0, 0) =~= Seq::<char>::empty());
    assert(views(out@) =~= Seq::<Seq<char>>::empty());
    while i < all.len()
        invariant
            i <= all@.len(),
            lines(all@.subrange(0, i as int)) == (if i > 0 && all@[i - 1] != '\n' {
                views(out@).push(line@)
            } else {
                views(out@)
            }),
            i == 0 || all@[i - 1] == '\n' ==> line@ == Seq::<char>::empty(),
        decreases all@.len() - i,
    {
        let c: char = all[i];
        let ghost now = all@.subrange(0, i + 1);
        let ghost before = views(out@);
        let ghost held = line@;
        assert(now.drop_last() =~= all@.subrange(0, i as int));
        if c == '\n' {
            if line.len() > 0 && line[line.len() - 1] == '\r' {
                line.pop();
            }
            out.push(collect(line.as_slice()));
            assert(views(out@) =~= before.push(without_return(held)));
            assert(before.push(held).drop_last() =~= before);
            line = Vec::new();
        } else {
            line.push(c);
            assert(before.push(held).drop_last() =~= before);
            assert(seq![c] =~= Seq::<char>::empty().push(c));
        }
        i = i + 1;
    }
    assert(all@.subrange(0, all@.len() as int) =~= s@);
    if all.len() > 0 && all[all.len() - 1] != '\n' {
        let ghost before = views(out@);
        out.push(collect(line.as_slice()));
        assert(views(out@) =~= before.push(line@));
    }
    out
}

/// Where `c` last stands in `s`, if it does.
pub fn find_last(s: &[char], c: char) -> (at: Option<usize>)
    ensures
        match at {
            Some(i) => i == last_index(s@, c) && i < s@.len(),
            None => last_index(s@, c) == -1,
        },
{
    let mut i: usize = s.len();
    assert(s@.subrange(0, i as int) =~= s@);
    while i > 0
        invariant
            i <= s@.len(),
            last_index(s@, c) == last_index(s@.subrange(0, i as int), c),
        decreases i,
    {
        assert(s@.subrange(0, i as int).drop_last() =~= s@.subrange(0, i - 1));
        if s[i - 1] == c {
            return Some(i - 1);
        }
        i = i - 1;
    }
    None
}

/// `s` with ASCII capitals made small.
pub fn lowercase(s: &[char]) -> (out: String)
    ensures
        out@ == lowered(s@),
{
    let mut out: String = String::new();
    let mut i: usize = 0;
    while i < s.len()
        invariant
            i <= s@.len(),
            out@ == lowered(s@).subrange(0, i as int),
        decreases s@.len() - i,
    {
        let c: char = s[i];
        if 'A' <= c && c <= 'Z' {
            out.push(((c as u8) + 32) as char);
        } else {
            out.push(c);
        }
        i = i + 1;
        assert(out@ =~= lowered(s@).subrange(0, i as int));
    }
    assert(lowered(s@).subrange(0, s@.len() as int) =~= lowered(s@));
    out
}

/// Whether every character is a hexadecimal digit.
pub fn hex_digits(s: &[char]) -> (r: bool)
    ensures
        r == (forall|i: int| 0 <= i < s@.len() ==> is_hex_digit(#[trigger] s@[i])),
{
    let mut i: usize = 0;
    while i < s.len()
        invariant
            i <= s@.len(),
            forall|j: int| 0 <= j < i ==> is_hex_digit(#[trigger] s@[j]),
        decreases s@.len() - i,
    {
        let c: char = s[i];
        if !(('0' <= c && c <= '9') || ('a' <= c && c <= 'f') || ('A' <= c && c <= 'F')) {
            assert(!is_hex_digit(s@[i as int]));
            return false;
        }
        i = i + 1;
    }
    true
}

/// The small hexadecimal digit of `d`.
pub fn hex_digit(d: u8) -> (c: char)
    requires
        d <= 15,
    ensures
        c == hex_char(d as int),
{
    match d {
        10 => 'a',
        11 => 'b',
        12 => 'c',
        13 => 'd',
        14 => 'e',
        15 => 'f',
        _ => digit(d as u64),
    }
}

/// Bytes in hexadecimal.
pub fn to_hex(bytes: &[u8]) -> (out: String)
    ensures
        out@ == hex(bytes@),
{
    let mut out: String = String::new();
    let mut i: usize = 0;
    assert(bytes@.subrange(0, 0) =~= Seq::<u8>::empty());
    while i < bytes.len()
        invariant
            i <= bytes@.len(),
            out@ == hex(bytes@.subrange(0, i as int)),
        decreases bytes@.len() - i,
    {
        let b: u8 = bytes[i];
        assert(bytes@.subrange(0, i + 1).drop_last() =~= bytes@.subrange(0, i as int));
        out.push(hex_digit(b / 16));
        out.push(hex_digit(b % 16));
        i = i + 1;
    }
    assert(bytes@.subrange(0, bytes@.len() as int) =~= bytes@);
    out
}

/// A copy of an optional text.
pub fn copied(text: &Option<String>) -> (copy: Option<String>)
    ensures
        optional(copy) == optional(*text),
{
    match text {
        Some(text) => Some(text.as_str().to_owned()),
        None => None,
    }
}

/// A copy of each string.
pub fn copies(strings: &[String]) -> (out: Vec<String>)
    ensures
        views(out@) == views(strings@),
{
    let mut out: Vec<String> = Vec::new();
    let mut i: usize = 0;
    while i < strings.len()
        invariant
            i <= strings@.len(),
            out@.len() == i,
            forall|k: int| 0 <= k < i ==> (#[trigger] out@[k])@ == strings@[k]@,
        decreases strings@.len() - i,
    {
        out.push(strings[i].as_str().to_owned());
        i = i + 1;
    }
    assert(views(out@) =~= views(strings@));
    out
}

/// The 64-bit number that a text writes.
pub fn parse_u64(s: &str) -> (n: Option<u64>)
    ensures
        match n {
            Some(n) => unsigned(s@, u64::MAX as int) == Some(n as int),
            None => unsigned(s@, u64::MAX as int) is None,
        },
{
    let all: Vec<char> = chars(s);
    let body: &[char] = if all.len() > 0 && all[0] == '+' {
        slice_subrange(all.as_slice(), 1, all.len())
    } else {
        all.as_slice()
    };
    if body.len() == 0 || !digits(body) {
        return None;
    }
    match parse_number(body, u64::MAX as u128) {
        Some(n) => Some(n as u64),
        None => None,
    }
}

/// Whether two texts are the same but for the case of ASCII letters.
pub fn same_but_case(s: &[char], lower: &str) -> (yes: bool)
    ensures
        yes == (lowered(s@) == lower@),
{
    let small: String = lowercase(s);
    same(small.as_str(), lower)
}

/// Whether a text is among a list.
pub fn holds(strings: &[String], s: &str) -> (found: bool)
    ensures
        found == views(strings@).contains(s@),
{
    let ghost all = views(strings@);
    let mut i: usize = 0;
    while i < strings.len()
        invariant
            i <= strings@.len(),
            all == views(strings@),
            forall|k: int| 0 <= k < i ==> #[trigger] all[k] != s@,
        decreases strings@.len() - i,
    {
        assert(all[i as int] == strings@[i as int]@);
        if same(strings[i].as_str(), s) {
            return true;
        }
        i = i + 1;
    }
    false
}

} // verus!
