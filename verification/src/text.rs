//! Text as a sequence of characters: finding, cutting, splitting, joining, and
//! the decimal numbers that stand in it.
//!
//! Every function here is stated over `Seq<char>`, the view of a `str` or a
//! `String`. The rest of the library is written with these operations, so what
//! they mean is what its contracts are made of.
use vstd::prelude::*;

verus! {

/// `String::push`: the character goes on the end.
pub assume_specification[ String::push ](s: &mut String, c: char)
    ensures
        final(s)@ == old(s)@.push(c),
;

/// What `str::to_lowercase` makes of a text.
pub uninterp spec fn lowercase(s: Seq<char>) -> Seq<char>;

/// Is every character of it ASCII?
pub open spec fn ascii(s: Seq<char>) -> bool {
    forall|i: int| 0 <= i < s.len() ==> (#[trigger] s[i]) as u32 <= 0x7f
}

/// `A` to `Z`.
pub open spec fn is_capital(c: char) -> bool {
    'A' <= c <= 'Z'
}

/// The small letter for a capital one; any other character is what it is.
pub open spec fn small(c: char) -> char {
    if is_capital(c) {
        (c as u32 + 32) as char
    } else {
        c
    }
}

/// A text in small letters.
pub open spec fn small_letters(s: Seq<char>) -> Seq<char> {
    s.map_values(|c: char| small(c))
}

/// A text is in small letters already exactly where it has no capital.
pub proof fn lemma_small_letters(s: Seq<char>)
    ensures
        s == small_letters(s) <==> forall|i: int| 0 <= i < s.len() ==> !is_capital(#[trigger] s[i]),
{
    let t = small_letters(s);
    assert forall|i: int| 0 <= i < s.len() implies (s[i] == t[i] <==> !is_capital(#[trigger] s[i])) by {
        assert(t[i] == small(s[i]));
    }
    if forall|i: int| 0 <= i < s.len() ==> !is_capital(#[trigger] s[i]) {
        assert(s =~= t);
    }
}

/// `str::to_lowercase`: the Unicode lowercase form, which is a function of the
/// text alone (no locale enters into it). Of ASCII each capital becomes its small
/// letter and the rest stays; what it makes of another text is not stated.
#[verifier::external_body]
pub(crate) fn to_lowercase(s: &str) -> (r: String)
    ensures
        r@ == lowercase(s@),
        ascii(s@) ==> r@ == small_letters(s@),
{
    s.to_lowercase()
}

/// What `char::is_alphanumeric` says of a character.
pub uninterp spec fn alphanumeric(c: char) -> bool;

/// `char::is_alphanumeric`: a letter or a number by Unicode's own tables, which
/// depend on nothing but the character.
#[verifier::external_body]
pub(crate) fn is_alphanumeric(c: char) -> (r: bool)
    ensures
        r == alphanumeric(c),
{
    c.is_alphanumeric()
}

// ---------------------------------------------------------------------------
// Sequences of texts
// ---------------------------------------------------------------------------
/// What a list of strings holds, as a sequence of texts.
pub open spec fn texts(v: Seq<String>) -> Seq<Seq<char>> {
    v.map_values(|s: String| s@)
}

pub proof fn lemma_texts_push(v: Seq<String>, s: String)
    ensures
        texts(v.push(s)) == texts(v).push(s@),
{
    assert(texts(v.push(s)) =~= texts(v).push(s@));
}

/// What a list of borrowed texts holds.
pub open spec fn views(v: Seq<&str>) -> Seq<Seq<char>> {
    v.map_values(|s: &str| s@)
}

/// What an optional borrowed text holds.
pub open spec fn opt(o: Option<&str>) -> Option<Seq<char>> {
    match o {
        Some(s) => Some(s@),
        None => None,
    }
}

/// What an optional text holds.
pub open spec fn opt_string(o: Option<String>) -> Option<Seq<char>> {
    match o {
        Some(s) => Some(s@),
        None => None,
    }
}

/// The texts that are not empty, in order.
pub open spec fn nonempty(v: Seq<Seq<char>>) -> Seq<Seq<char>>
    decreases v.len(),
{
    if v.len() == 0 {
        Seq::empty()
    } else if v.last().len() == 0 {
        nonempty(v.drop_last())
    } else {
        nonempty(v.drop_last()).push(v.last())
    }
}

/// The texts one after another, with the separator between any two.
pub open spec fn joined(v: Seq<Seq<char>>, sep: Seq<char>) -> Seq<char>
    decreases v.len(),
{
    if v.len() == 0 {
        Seq::empty()
    } else if v.len() == 1 {
        v[0]
    } else {
        joined(v.drop_last(), sep) + sep + v.last()
    }
}

// ---------------------------------------------------------------------------
// Where one text stands in another
// ---------------------------------------------------------------------------
/// Does `p` stand in `s` at position `i`?
pub open spec fn occurs_at(s: Seq<char>, p: Seq<char>, i: int) -> bool {
    0 <= i && i + p.len() <= s.len() && s.subrange(i, i + p.len()) == p
}

/// Does `p` stand anywhere in `s`?
pub open spec fn has(s: Seq<char>, p: Seq<char>) -> bool {
    exists|i: int| occurs_at(s, p, i)
}

/// The first position at or after `from` where `p` stands in `s`.
pub open spec fn find_from(s: Seq<char>, p: Seq<char>, from: int) -> Option<int>
    decreases s.len() - from + 1,
{
    if from + p.len() > s.len() {
        None
    } else if occurs_at(s, p, from) {
        Some(from)
    } else {
        find_from(s, p, from + 1)
    }
}

pub open spec fn find(s: Seq<char>, p: Seq<char>) -> Option<int> {
    find_from(s, p, 0)
}

/// The first position at or after `from` that holds `c`.
pub open spec fn find_char(s: Seq<char>, c: char, from: int) -> Option<int>
    decreases s.len() - from,
{
    if from >= s.len() {
        None
    } else if s[from] == c {
        Some(from)
    } else {
        find_char(s, c, from + 1)
    }
}

/// The last position before `to` that holds `c`.
pub open spec fn rfind_char(s: Seq<char>, c: char, to: int) -> Option<int>
    decreases to,
{
    if to <= 0 || to > s.len() {
        None
    } else if s[to - 1] == c {
        Some(to - 1)
    } else {
        rfind_char(s, c, to - 1)
    }
}

/// What stands before the first `c`, and what stands behind it.
pub open spec fn cut(s: Seq<char>, c: char) -> Option<(Seq<char>, Seq<char>)> {
    match find_char(s, c, 0) {
        Some(i) => Some((s.take(i), s.skip(i + 1))),
        None => None,
    }
}

/// What stands before the first `p`, and what stands behind it.
pub open spec fn cut_text(s: Seq<char>, p: Seq<char>) -> Option<(Seq<char>, Seq<char>)> {
    match find(s, p) {
        Some(i) => Some((s.take(i), s.skip(i + p.len()))),
        None => None,
    }
}

/// Everything behind the last `c`, or the whole text where there is none.
pub open spec fn after_last(s: Seq<char>, c: char) -> Seq<char> {
    match rfind_char(s, c, s.len() as int) {
        Some(i) => s.skip(i + 1),
        None => s,
    }
}

/// The text without that prefix, if it has it.
pub open spec fn without_prefix(s: Seq<char>, p: Seq<char>) -> Option<Seq<char>> {
    if p.is_prefix_of(s) {
        Some(s.skip(p.len() as int))
    } else {
        None
    }
}

pub proof fn lemma_find_from(s: Seq<char>, p: Seq<char>, from: int)
    requires
        0 <= from,
    ensures
        match find_from(s, p, from) {
            Some(i) => from <= i && occurs_at(s, p, i) && forall|j: int|
                from <= j < i ==> !occurs_at(s, p, j),
            None => forall|j: int| from <= j ==> !occurs_at(s, p, j),
        },
    decreases s.len() - from + 1,
{
    if from + p.len() > s.len() {
    } else if occurs_at(s, p, from) {
    } else {
        lemma_find_from(s, p, from + 1);
    }
}

/// A text is found exactly when it is there.
pub proof fn lemma_find_is_has(s: Seq<char>, p: Seq<char>)
    ensures
        find(s, p) is Some <==> has(s, p),
{
    lemma_find_from(s, p, 0);
}

pub proof fn lemma_find_char(s: Seq<char>, c: char, from: int)
    requires
        0 <= from,
    ensures
        match find_char(s, c, from) {
            Some(i) => from <= i < s.len() && s[i] == c && forall|j: int|
                from <= j < i ==> s[j] != c,
            None => forall|j: int| from <= j < s.len() ==> s[j] != c,
        },
    decreases s.len() - from,
{
    if from >= s.len() {
    } else if s[from] == c {
    } else {
        lemma_find_char(s, c, from + 1);
    }
}

pub proof fn lemma_rfind_char(s: Seq<char>, c: char, to: int)
    requires
        0 <= to <= s.len(),
    ensures
        match rfind_char(s, c, to) {
            Some(i) => 0 <= i < to && s[i] == c && forall|j: int| i < j < to ==> s[j] != c,
            None => forall|j: int| 0 <= j < to ==> s[j] != c,
        },
    decreases to,
{
    if to <= 0 {
    } else if s[to - 1] == c {
    } else {
        lemma_rfind_char(s, c, to - 1);
    }
}

// ---------------------------------------------------------------------------
// Kinds of characters
// ---------------------------------------------------------------------------
/// The Unicode `White_Space` property.
pub open spec fn is_space(c: char) -> bool {
    ||| 0x9 <= c as u32 <= 0xd
    ||| c as u32 == 0x20
    ||| c as u32 == 0x85
    ||| c as u32 == 0xa0
    ||| c as u32 == 0x1680
    ||| 0x2000 <= c as u32 <= 0x200a
    ||| c as u32 == 0x2028
    ||| c as u32 == 0x2029
    ||| c as u32 == 0x202f
    ||| c as u32 == 0x205f
    ||| c as u32 == 0x3000
}

/// `0` to `9`.
pub open spec fn is_digit(c: char) -> bool {
    0x30 <= c as u32 <= 0x39
}

/// An ASCII letter or digit.
pub open spec fn is_alnum(c: char) -> bool {
    ||| is_digit(c)
    ||| 0x41 <= c as u32 <= 0x5a
    ||| 0x61 <= c as u32 <= 0x7a
}

pub fn space(c: char) -> (r: bool)
    ensures
        r == is_space(c),
{
    let n: u32 = c as u32;
    (0x9 <= n && n <= 0xd) || n == 0x20 || n == 0x85 || n == 0xa0 || n == 0x1680 || (0x2000 <= n
        && n <= 0x200a) || n == 0x2028 || n == 0x2029 || n == 0x202f || n == 0x205f || n == 0x3000
}

pub fn digit(c: char) -> (r: bool)
    ensures
        r == is_digit(c),
{
    let n: u32 = c as u32;
    0x30 <= n && n <= 0x39
}

pub fn alnum(c: char) -> (r: bool)
    ensures
        r == is_alnum(c),
{
    let n: u32 = c as u32;
    (0x30 <= n && n <= 0x39) || (0x41 <= n && n <= 0x5a) || (0x61 <= n && n <= 0x7a)
}

// ---------------------------------------------------------------------------
// Taking space off the ends
// ---------------------------------------------------------------------------
pub open spec fn trimmed_start(s: Seq<char>) -> Seq<char>
    decreases s.len(),
{
    if s.len() > 0 && is_space(s[0]) {
        trimmed_start(s.skip(1))
    } else {
        s
    }
}

pub open spec fn trimmed_end(s: Seq<char>) -> Seq<char>
    decreases s.len(),
{
    if s.len() > 0 && is_space(s.last()) {
        trimmed_end(s.drop_last())
    } else {
        s
    }
}

pub open spec fn trimmed(s: Seq<char>) -> Seq<char> {
    trimmed_end(trimmed_start(s))
}

/// Is there nothing in it but space?
pub open spec fn is_blank(s: Seq<char>) -> bool {
    forall|i: int| 0 <= i < s.len() ==> is_space(s[i])
}

pub proof fn lemma_trimmed_start(s: Seq<char>)
    ensures
        trimmed_start(s).len() <= s.len(),
        trimmed_start(s) == s.skip(s.len() - trimmed_start(s).len()),
        forall|i: int| 0 <= i < s.len() - trimmed_start(s).len() ==> is_space(s[i]),
        trimmed_start(s).len() > 0 ==> !is_space(trimmed_start(s)[0]),
    decreases s.len(),
{
    if s.len() > 0 && is_space(s[0]) {
        lemma_trimmed_start(s.skip(1));
        let k = s.len() - trimmed_start(s).len();
        assert(s.skip(1).skip(k - 1) =~= s.skip(k));
        assert forall|i: int| 0 <= i < k implies is_space(s[i]) by {
            if i > 0 {
                assert(s.skip(1)[i - 1] == s[i]);
            }
        }
    } else {
        assert(s.skip(0) =~= s);
    }
}

pub proof fn lemma_trimmed_end(s: Seq<char>)
    ensures
        trimmed_end(s).len() <= s.len(),
        trimmed_end(s) == s.take(trimmed_end(s).len() as int),
        forall|i: int| trimmed_end(s).len() <= i < s.len() ==> is_space(s[i]),
        trimmed_end(s).len() > 0 ==> !is_space(trimmed_end(s).last()),
    decreases s.len(),
{
    if s.len() > 0 && is_space(s.last()) {
        lemma_trimmed_end(s.drop_last());
        let k = trimmed_end(s).len() as int;
        assert(s.drop_last().take(k) =~= s.take(k));
        assert forall|i: int| k <= i < s.len() implies is_space(s[i]) by {
            if i < s.len() - 1 {
                assert(s.drop_last()[i] == s[i]);
            }
        }
    } else {
        assert(s.take(s.len() as int) =~= s);
    }
}

// ---------------------------------------------------------------------------
// Splitting
// ---------------------------------------------------------------------------
/// The pieces between the characters `a` and `b`: what is left of a text whose
/// current piece began at `start` and which has been read up to `i`.
pub open spec fn split_from(s: Seq<char>, a: char, b: char, start: int, i: int) -> Seq<Seq<char>>
    decreases s.len() - i,
{
    if i >= s.len() {
        seq![s.subrange(start, s.len() as int)]
    } else if s[i] == a || s[i] == b {
        seq![s.subrange(start, i)] + split_from(s, a, b, i + 1, i + 1)
    } else {
        split_from(s, a, b, start, i + 1)
    }
}

/// The pieces between either of two characters.
pub open spec fn split_on(s: Seq<char>, a: char, b: char) -> Seq<Seq<char>> {
    split_from(s, a, b, 0, 0)
}

/// The pieces between one character.
pub open spec fn fields(s: Seq<char>, c: char) -> Seq<Seq<char>> {
    split_from(s, c, c, 0, 0)
}

/// A line without the carriage return that a line feed may follow.
pub open spec fn chomped(s: Seq<char>) -> Seq<char> {
    if s.len() > 0 && s.last() == '\r' {
        s.drop_last()
    } else {
        s
    }
}

pub open spec fn lines_from(s: Seq<char>, start: int, i: int) -> Seq<Seq<char>>
    decreases s.len() - i,
{
    if i >= s.len() {
        if start >= s.len() {
            Seq::empty()
        } else {
            seq![s.subrange(start, s.len() as int)]
        }
    } else if s[i] == '\n' {
        seq![chomped(s.subrange(start, i))] + lines_from(s, i + 1, i + 1)
    } else {
        lines_from(s, start, i + 1)
    }
}

/// The lines of a text: each ends at a line feed, with or without a carriage
/// return before it, and what follows the last one is a line if there is any.
pub open spec fn lines_of(s: Seq<char>) -> Seq<Seq<char>> {
    lines_from(s, 0, 0)
}

pub open spec fn words_from(s: Seq<char>, start: int, i: int) -> Seq<Seq<char>>
    decreases s.len() - i,
{
    if i >= s.len() {
        if start >= s.len() {
            Seq::empty()
        } else {
            seq![s.subrange(start, s.len() as int)]
        }
    } else if is_space(s[i]) {
        (if start < i {
            seq![s.subrange(start, i)]
        } else {
            Seq::empty()
        }) + words_from(s, i + 1, i + 1)
    } else {
        words_from(s, start, i + 1)
    }
}

/// The runs of characters between the white space.
pub open spec fn words_of(s: Seq<char>) -> Seq<Seq<char>> {
    words_from(s, 0, 0)
}

// ---------------------------------------------------------------------------
// Decimal numbers
// ---------------------------------------------------------------------------
pub open spec fn digit_char(d: int) -> char {
    (0x30 + d) as char
}

/// A natural number written in decimal, with no leading zero.
pub open spec fn decimal(n: nat) -> Seq<char>
    decreases n,
{
    if n < 10 {
        seq![digit_char(n as int)]
    } else {
        decimal(n / 10).push(digit_char((n % 10) as int))
    }
}

/// An integer written in decimal.
pub open spec fn decimal_int(n: int) -> Seq<char> {
    if n < 0 {
        seq!['-'] + decimal((-n) as nat)
    } else {
        decimal(n as nat)
    }
}

pub open spec fn all_digits(s: Seq<char>) -> bool {
    forall|i: int| 0 <= i < s.len() ==> is_digit(s[i])
}

/// The number that a run of digits stands for.
pub open spec fn value_of(s: Seq<char>) -> nat
    decreases s.len(),
{
    if s.len() == 0 {
        0
    } else {
        (value_of(s.drop_last()) * 10 + (s.last() as u32 as int - 0x30)) as nat
    }
}

/// The natural number a text spells: digits, perhaps behind one `+`.
pub open spec fn natural(s: Seq<char>) -> Option<nat> {
    let d = if s.len() > 0 && s[0] == '+' {
        s.skip(1)
    } else {
        s
    };
    if d.len() > 0 && all_digits(d) {
        Some(value_of(d))
    } else {
        None
    }
}

/// The integer a text spells: digits, perhaps behind one `+` or `-`.
pub open spec fn integer(s: Seq<char>) -> Option<int> {
    if s.len() > 0 && s[0] == '-' {
        if s.len() > 1 && all_digits(s.skip(1)) {
            Some(-(value_of(s.skip(1)) as int))
        } else {
            None
        }
    } else {
        match natural(s) {
            Some(n) => Some(n as int),
            None => None,
        }
    }
}

// ---------------------------------------------------------------------------
// Reading and building
// ---------------------------------------------------------------------------
/// The characters of a text, for code that needs them by index.
pub fn chars_of(s: &str) -> (r: Vec<char>)
    ensures
        r@ == s@,
{
    let mut v: Vec<char> = Vec::new();
    for c in it: s.chars()
        invariant
            it.seq() == s@,
            v@ == s@.take(it.index() as int),
    {
        v.push(c);
        assert(s@.take(it.index() as int).push(c) =~= s@.take(it.index() + 1));
    }
    assert(s@.take(s@.len() as int) =~= s@);
    v
}

/// The characters from `a` up to `b`, as a text.
pub fn slice(v: &Vec<char>, a: usize, b: usize) -> (r: String)
    requires
        a <= b <= v@.len(),
    ensures
        r@ == v@.subrange(a as int, b as int),
{
    let mut out = String::new();
    let mut i: usize = a;
    while i < b
        invariant
            a <= i <= b <= v@.len(),
            out@ == v@.subrange(a as int, i as int),
        decreases b - i,
    {
        out.push(v[i]);
        i = i + 1;
        assert(v@.subrange(a as int, i as int) =~= v@.subrange(a as int, i - 1).push(
            v@[i - 1],
        ));
    }
    out
}

/// The text that the characters make.
pub fn text_of(v: &Vec<char>) -> (r: String)
    ensures
        r@ == v@,
{
    assert(v@.subrange(0, v@.len() as int) =~= v@);
    slice(v, 0, v.len())
}

/// Are the two texts the same, character for character?
pub fn same(a: &str, b: &str) -> (r: bool)
    ensures
        r == (a@ == b@),
{
    let mut x = a.chars();
    let mut y = b.chars();
    let ghost mut n: int = 0;
    assert(a@.skip(0) =~= a@);
    assert(b@.skip(0) =~= b@);
    loop
        invariant
            0 <= n <= a@.len(),
            n <= b@.len(),
            vstd::std_specs::iter::IteratorSpec::remaining(&x) == a@.skip(n),
            vstd::std_specs::iter::IteratorSpec::remaining(&y) == b@.skip(n),
            forall|i: int| 0 <= i < n ==> a@[i] == b@[i],
        decreases a@.len() - n,
    {
        let c = x.next();
        let d = y.next();
        match (c, d) {
            (None, None) => {
                assert(a@ =~= b@);
                return true;
            },
            (Some(p), Some(q)) => {
                assert(a@.skip(n)[0] == a@[n]);
                assert(b@.skip(n)[0] == b@[n]);
                if p != q {
                    assert(a@[n] != b@[n]);
                    return false;
                }
                assert(a@.skip(n).drop_first() =~= a@.skip(n + 1));
                assert(b@.skip(n).drop_first() =~= b@.skip(n + 1));
                proof {
                    n = n + 1;
                }
            },
            _ => {
                assert(a@.len() != b@.len());
                return false;
            },
        }
    }
}

/// Does the text open with that?
pub fn starts_with(s: &str, p: &str) -> (r: bool)
    ensures
        r == p@.is_prefix_of(s@),
{
    let mut x = s.chars();
    let mut y = p.chars();
    let ghost mut n: int = 0;
    assert(s@.skip(0) =~= s@);
    assert(p@.skip(0) =~= p@);
    loop
        invariant
            0 <= n <= s@.len(),
            n <= p@.len(),
            vstd::std_specs::iter::IteratorSpec::remaining(&x) == s@.skip(n),
            vstd::std_specs::iter::IteratorSpec::remaining(&y) == p@.skip(n),
            forall|i: int| 0 <= i < n ==> s@[i] == p@[i],
        decreases s@.len() - n,
    {
        let d = y.next();
        if d.is_none() {
            assert(p@ =~= s@.subrange(0, p@.len() as int));
            return true;
        }
        let c = x.next();
        assert(p@.skip(n)[0] == p@[n]);
        if c.is_none() {
            assert(s@.len() < p@.len());
            return false;
        }
        assert(s@.skip(n)[0] == s@[n]);
        if c.unwrap() != d.unwrap() {
            proof {
                if p@.len() <= s@.len() {
                    assert(s@.subrange(0, p@.len() as int)[n] != p@[n]);
                }
            }
            return false;
        }
        assert(s@.skip(n).drop_first() =~= s@.skip(n + 1));
        assert(p@.skip(n).drop_first() =~= p@.skip(n + 1));
        proof {
            n = n + 1;
        }
    }
}

/// Does the text close with that?
pub fn ends_with(s: &str, p: &str) -> (r: bool)
    ensures
        r == p@.is_suffix_of(s@),
{
    let x = chars_of(s);
    let y = chars_of(p);
    if y.len() > x.len() {
        return false;
    }
    let off: usize = x.len() - y.len();
    let r = stands_at(&x, &y, off);
    assert(s@.subrange(off as int, off + p@.len()) =~= s@.subrange(
        (s@.len() - p@.len()) as int,
        s@.len() as int,
    ));
    r
}

/// Does `p` stand in `v` at `at`?
pub fn stands_at(v: &Vec<char>, p: &Vec<char>, at: usize) -> (r: bool)
    requires
        at <= v@.len(),
    ensures
        r == occurs_at(v@, p@, at as int),
{
    if v.len() - at < p.len() {
        return false;
    }
    let mut i: usize = 0;
    while i < p.len()
        invariant
            i <= p@.len(),
            at + p@.len() <= v.len(),
            forall|j: int| 0 <= j < i ==> v@[at + j] == p@[j],
        decreases p@.len() - i,
    {
        if v[at + i] != p[i] {
            assert(v@.subrange(at as int, at + p@.len())[i as int] != p@[i as int]);
            return false;
        }
        i = i + 1;
    }
    assert(v@.subrange(at as int, at + p@.len()) =~= p@);
    true
}

/// The first place at or after `from` where `p` stands in `v`.
pub fn find_at(v: &Vec<char>, p: &Vec<char>, from: usize) -> (r: Option<usize>)
    requires
        from <= v@.len(),
    ensures
        match r {
            Some(i) => find_from(v@, p@, from as int) == Some(i as int) && i + p@.len() <= v.len(),
            None => find_from(v@, p@, from as int) is None,
        },
{
    let mut i: usize = from;
    while i <= v.len() && v.len() - i >= p.len()
        invariant
            from <= i <= v@.len(),
            find_from(v@, p@, i as int) == find_from(v@, p@, from as int),
        decreases v@.len() - i + 1,
    {
        if stands_at(v, p, i) {
            return Some(i);
        }
        if i == v.len() {
            assert(find_from(v@, p@, i + 1) is None);
            return None;
        }
        i = i + 1;
    }
    None
}

/// The first place at or after `from` that holds `c`.
pub fn find_char_at(v: &Vec<char>, c: char, from: usize) -> (r: Option<usize>)
    requires
        from <= v@.len(),
    ensures
        match r {
            Some(i) => find_char(v@, c, from as int) == Some(i as int) && from <= i < v@.len()
                && v@[i as int] == c,
            None => find_char(v@, c, from as int) is None,
        },
{
    let mut i: usize = from;
    while i < v.len()
        invariant
            from <= i <= v@.len(),
            find_char(v@, c, i as int) == find_char(v@, c, from as int),
        decreases v@.len() - i,
    {
        if v[i] == c {
            return Some(i);
        }
        i = i + 1;
    }
    None
}

/// The last place before `to` that holds `c`.
pub fn rfind_char_at(v: &Vec<char>, c: char, to: usize) -> (r: Option<usize>)
    requires
        to <= v@.len(),
    ensures
        match r {
            Some(i) => rfind_char(v@, c, to as int) == Some(i as int) && i < to && v@[i as int]
                == c,
            None => rfind_char(v@, c, to as int) is None,
        },
{
    let mut i: usize = to;
    while i > 0
        invariant
            i <= to <= v@.len(),
            rfind_char(v@, c, i as int) == rfind_char(v@, c, to as int),
        decreases i,
    {
        if v[i - 1] == c {
            return Some(i - 1);
        }
        i = i - 1;
    }
    None
}

/// Does `p` stand anywhere in `s`?
pub fn contains(s: &str, p: &str) -> (r: bool)
    ensures
        r == has(s@, p@),
{
    proof {
        lemma_find_is_has(s@, p@);
    }
    let v = chars_of(s);
    let q = chars_of(p);
    find_at(&v, &q, 0).is_some()
}

/// Does the character stand anywhere in `s`?
pub fn contains_char(s: &str, c: char) -> (r: bool)
    ensures
        r == s@.contains(c),
{
    proof {
        lemma_find_char(s@, c, 0);
    }
    let v = chars_of(s);
    find_char_at(&v, c, 0).is_some()
}

/// What stands before the first `c` and what stands behind it.
pub fn split_once(s: &str, c: char) -> (r: Option<(String, String)>)
    ensures
        match r {
            Some((a, b)) => cut(s@, c) == Some((a@, b@)),
            None => cut(s@, c) is None,
        },
{
    let v = chars_of(s);
    match find_char_at(&v, c, 0) {
        None => None,
        Some(i) => {
            let n: usize = v.len();
            assert(v@.subrange(0, i as int) =~= s@.take(i as int));
            assert(v@.subrange(i + 1, v@.len() as int) =~= s@.skip(i + 1));
            Some((slice(&v, 0, i), slice(&v, i + 1, n)))
        },
    }
}

/// What stands before the first `p` and what stands behind it.
pub fn split_once_text(s: &str, p: &str) -> (r: Option<(String, String)>)
    ensures
        match r {
            Some((a, b)) => cut_text(s@, p@) == Some((a@, b@)),
            None => cut_text(s@, p@) is None,
        },
{
    let v = chars_of(s);
    let q = chars_of(p);
    proof {
        lemma_find_from(s@, p@, 0);
    }
    match find_at(&v, &q, 0) {
        None => None,
        Some(i) => {
            let k: usize = i + q.len();
            let n: usize = v.len();
            assert(v@.subrange(0, i as int) =~= s@.take(i as int));
            assert(v@.subrange(k as int, n as int) =~= s@.skip(k as int));
            Some((slice(&v, 0, i), slice(&v, k, n)))
        },
    }
}

/// Everything behind the last `c`.
pub fn tail_after(s: &str, c: char) -> (r: String)
    ensures
        r@ == after_last(s@, c),
{
    let v = chars_of(s);
    match rfind_char_at(&v, c, v.len()) {
        None => s.to_owned(),
        Some(i) => {
            assert(v@.subrange(i + 1, v@.len() as int) =~= s@.skip(i + 1));
            slice(&v, i + 1, v.len())
        },
    }
}

/// The text without that prefix, if it has it.
pub fn strip_prefix(s: &str, p: &str) -> (r: Option<String>)
    ensures
        match r {
            Some(t) => without_prefix(s@, p@) == Some(t@),
            None => without_prefix(s@, p@) is None,
        },
{
    if starts_with(s, p) {
        let v = chars_of(s);
        let n: usize = p.unicode_len();
        assert(v@.subrange(n as int, v@.len() as int) =~= s@.skip(n as int));
        Some(slice(&v, n, v.len()))
    } else {
        None
    }
}

/// The text without that suffix, or all of it where it does not have it.
pub open spec fn without_suffix(s: Seq<char>, p: Seq<char>) -> Seq<char> {
    if p.is_suffix_of(s) {
        s.take(s.len() - p.len())
    } else {
        s
    }
}

pub fn trim_suffix(s: &str, p: &str) -> (r: String)
    ensures
        r@ == without_suffix(s@, p@),
{
    if ends_with(s, p) {
        let v = chars_of(s);
        let n: usize = p.unicode_len();
        assert(v@.subrange(0, v@.len() - n) =~= s@.take(s@.len() - n));
        slice(&v, 0, v.len() - n)
    } else {
        s.to_owned()
    }
}

/// The first `n` characters, or all of them where there are fewer.
pub open spec fn first_chars(s: Seq<char>, n: nat) -> Seq<char> {
    if s.len() <= n {
        s
    } else {
        s.take(n as int)
    }
}

pub fn take_chars(s: &str, n: usize) -> (r: String)
    ensures
        r@ == first_chars(s@, n as nat),
{
    let v = chars_of(s);
    if v.len() <= n {
        s.to_owned()
    } else {
        assert(v@.subrange(0, n as int) =~= s@.take(n as int));
        slice(&v, 0, n)
    }
}

/// The text with every space at its start gone.
pub fn trim_start(s: &str) -> (r: String)
    ensures
        r@ == trimmed_start(s@),
{
    let v = chars_of(s);
    let mut i: usize = 0;
    assert(v@.skip(0) =~= v@);
    while i < v.len() && space(v[i])
        invariant
            i <= v@.len(),
            trimmed_start(v@.skip(i as int)) == trimmed_start(v@),
        decreases v@.len() - i,
    {
        assert(v@.skip(i as int)[0] == v@[i as int]);
        assert(v@.skip(i as int).skip(1) =~= v@.skip(i + 1));
        i = i + 1;
    }
    assert(i < v@.len() ==> v@.skip(i as int)[0] == v@[i as int]);
    assert(v@.subrange(i as int, v@.len() as int) =~= v@.skip(i as int));
    slice(&v, i, v.len())
}

/// The text with every space at its end gone.
pub fn trim_end(s: &str) -> (r: String)
    ensures
        r@ == trimmed_end(s@),
{
    let v = chars_of(s);
    let mut i: usize = v.len();
    assert(v@.take(v@.len() as int) =~= v@);
    while i > 0 && space(v[i - 1])
        invariant
            i <= v@.len(),
            trimmed_end(v@.take(i as int)) == trimmed_end(v@),
        decreases i,
    {
        assert(v@.take(i as int).drop_last() =~= v@.take(i - 1));
        i = i - 1;
    }
    assert(v@.subrange(0, i as int) =~= v@.take(i as int));
    slice(&v, 0, i)
}

/// The text with every space at either end gone.
pub fn trim(s: &str) -> (r: String)
    ensures
        r@ == trimmed(s@),
{
    let t = trim_start(s);
    trim_end(&t)
}

/// Is there nothing in it but space?
pub fn blank(s: &str) -> (r: bool)
    ensures
        r == is_blank(s@),
{
    for c in it: s.chars()
        invariant
            it.seq() == s@,
            forall|i: int| 0 <= i < it.index() ==> is_space(s@[i]),
    {
        if !space(c) {
            assert(!is_space(s@[it.index() as int]));
            return false;
        }
    }
    true
}

/// The pieces between either of two characters.
pub fn split_either(s: &str, a: char, b: char) -> (r: Vec<String>)
    ensures
        texts(r@) == split_on(s@, a, b),
        r@.len() > 0,
{
    let v = chars_of(s);
    let mut out: Vec<String> = Vec::new();
    let mut start: usize = 0;
    let mut i: usize = 0;
    assert(texts(out@) + split_from(v@, a, b, 0, 0) =~= split_from(v@, a, b, 0, 0));
    while i < v.len()
        invariant
            start <= i <= v@.len(),
            texts(out@) + split_from(v@, a, b, start as int, i as int) == split_on(v@, a, b),
        decreases v@.len() - i,
    {
        if v[i] == a || v[i] == b {
            let piece = slice(&v, start, i);
            let ghost before = texts(out@);
            proof {
                lemma_texts_push(out@, piece);
            }
            out.push(piece);
            assert(before + (seq![v@.subrange(start as int, i as int)] + split_from(
                v@,
                a,
                b,
                i + 1,
                i + 1,
            )) =~= before.push(piece@) + split_from(v@, a, b, i + 1, i + 1));
            start = i + 1;
        }
        i = i + 1;
    }
    let piece = slice(&v, start, v.len());
    proof {
        lemma_texts_push(out@, piece);
        assert(texts(out@) + seq![piece@] =~= texts(out@).push(piece@));
    }
    out.push(piece);
    out
}

/// The pieces between one character.
pub fn split(s: &str, c: char) -> (r: Vec<String>)
    ensures
        texts(r@) == fields(s@, c),
        r@.len() > 0,
{
    split_either(s, c, c)
}

/// The lines of a text.
pub fn lines(s: &str) -> (r: Vec<String>)
    ensures
        texts(r@) == lines_of(s@),
{
    let v = chars_of(s);
    let mut out: Vec<String> = Vec::new();
    let mut start: usize = 0;
    let mut i: usize = 0;
    assert(texts(out@) + lines_from(v@, 0, 0) =~= lines_from(v@, 0, 0));
    while i < v.len()
        invariant
            start <= i <= v@.len(),
            texts(out@) + lines_from(v@, start as int, i as int) == lines_of(v@),
        decreases v@.len() - i,
    {
        if v[i] == '\n' {
            let end: usize = if start < i && v[i - 1] == '\r' {
                i - 1
            } else {
                i
            };
            let piece = slice(&v, start, end);
            assert(piece@ =~= chomped(v@.subrange(start as int, i as int)));
            let ghost before = texts(out@);
            proof {
                lemma_texts_push(out@, piece);
            }
            out.push(piece);
            assert(before + (seq![piece@] + lines_from(v@, i + 1, i + 1)) =~= before.push(piece@)
                + lines_from(v@, i + 1, i + 1));
            start = i + 1;
        }
        i = i + 1;
    }
    if start < v.len() {
        let piece = slice(&v, start, v.len());
        proof {
            lemma_texts_push(out@, piece);
            assert(texts(out@) + seq![piece@] =~= texts(out@).push(piece@));
        }
        out.push(piece);
    } else {
        assert(texts(out@) + Seq::<Seq<char>>::empty() =~= texts(out@));
    }
    out
}

/// The runs of characters between the white space.
pub fn words(s: &str) -> (r: Vec<String>)
    ensures
        texts(r@) == words_of(s@),
{
    let v = chars_of(s);
    let mut out: Vec<String> = Vec::new();
    let mut start: usize = 0;
    let mut i: usize = 0;
    assert(texts(out@) + words_from(v@, 0, 0) =~= words_from(v@, 0, 0));
    while i < v.len()
        invariant
            start <= i <= v@.len(),
            texts(out@) + words_from(v@, start as int, i as int) == words_of(v@),
        decreases v@.len() - i,
    {
        if space(v[i]) {
            let ghost before = texts(out@);
            if start < i {
                let piece = slice(&v, start, i);
                proof {
                    lemma_texts_push(out@, piece);
                }
                out.push(piece);
                assert(before + (seq![piece@] + words_from(v@, i + 1, i + 1)) =~= before.push(
                    piece@,
                ) + words_from(v@, i + 1, i + 1));
            } else {
                assert(before + (Seq::<Seq<char>>::empty() + words_from(v@, i + 1, i + 1))
                    =~= before + words_from(v@, i + 1, i + 1));
            }
            start = i + 1;
        }
        i = i + 1;
    }
    if start < v.len() {
        let piece = slice(&v, start, v.len());
        proof {
            lemma_texts_push(out@, piece);
            assert(texts(out@) + seq![piece@] =~= texts(out@).push(piece@));
        }
        out.push(piece);
    } else {
        assert(texts(out@) + Seq::<Seq<char>>::empty() =~= texts(out@));
    }
    out
}

/// The texts that are not empty, in order.
pub fn drop_empty(v: &Vec<String>) -> (r: Vec<String>)
    ensures
        texts(r@) == nonempty(texts(v@)),
{
    let mut out: Vec<String> = Vec::new();
    let mut i: usize = 0;
    assert(texts(out@) =~= nonempty(texts(v@).take(0)));
    while i < v.len()
        invariant
            i <= v@.len(),
            texts(out@) == nonempty(texts(v@).take(i as int)),
        decreases v@.len() - i,
    {
        assert(texts(v@).take(i + 1).drop_last() =~= texts(v@).take(i as int));
        assert(texts(v@).take(i + 1).last() == v@[i as int]@);
        if !v[i].as_str().is_empty() {
            let t = v[i].clone();
            proof {
                lemma_texts_push(out@, t);
            }
            out.push(t);
        }
        i = i + 1;
    }
    assert(texts(v@).take(v@.len() as int) =~= texts(v@));
    out
}

/// The texts one after another, with the separator between any two.
pub fn join(v: &Vec<String>, sep: &str) -> (r: String)
    ensures
        r@ == joined(texts(v@), sep@),
{
    let mut out = String::new();
    let mut i: usize = 0;
    assert(texts(v@).take(0).len() == 0);
    while i < v.len()
        invariant
            i <= v@.len(),
            out@ == joined(texts(v@).take(i as int), sep@),
        decreases v@.len() - i,
    {
        assert(texts(v@).take(i + 1).drop_last() =~= texts(v@).take(i as int));
        assert(texts(v@).take(i + 1).last() == v@[i as int]@);
        if i > 0 {
            out.append(sep);
            out.append(&v[i]);
        } else {
            out.append(&v[i]);
            assert(out@ =~= v@[0]@);
        }
        i = i + 1;
    }
    assert(texts(v@).take(v@.len() as int) =~= texts(v@));
    out
}

/// A copy of a list of strings.
pub fn copy_of(v: &Vec<String>) -> (r: Vec<String>)
    ensures
        texts(r@) == texts(v@),
{
    let mut out: Vec<String> = Vec::new();
    let mut i: usize = 0;
    assert(texts(out@) =~= texts(v@).take(0));
    while i < v.len()
        invariant
            i <= v@.len(),
            texts(out@) == texts(v@).take(i as int),
        decreases v@.len() - i,
    {
        let t = v[i].clone();
        proof {
            lemma_texts_push(out@, t);
            assert(texts(v@).take(i + 1) =~= texts(v@).take(i as int).push(v@[i as int]@));
        }
        out.push(t);
        i = i + 1;
    }
    assert(texts(v@).take(v@.len() as int) =~= texts(v@));
    out
}

/// Is the text one of those in the list?
pub fn listed(v: &Vec<String>, s: &str) -> (r: bool)
    ensures
        r == texts(v@).contains(s@),
{
    let mut i: usize = 0;
    while i < v.len()
        invariant
            i <= v@.len(),
            forall|j: int| 0 <= j < i ==> texts(v@)[j] != s@,
        decreases v@.len() - i,
    {
        if same(&v[i], s) {
            assert(texts(v@)[i as int] == s@);
            return true;
        }
        i = i + 1;
    }
    false
}

/// The character of one decimal digit.
fn digit_of(d: u8) -> (r: char)
    requires
        d < 10,
    ensures
        r == digit_char(d as int),
{
    (0x30 + d) as char
}

/// A natural number written in decimal.
pub fn dec(n: u64) -> (r: String)
    ensures
        r@ == decimal(n as nat),
    decreases n,
{
    if n < 10 {
        let mut out = String::new();
        out.push(digit_of(n as u8));
        assert(out@ =~= seq![digit_char(n as int)]);
        out
    } else {
        let mut out = dec(n / 10);
        out.push(digit_of((n % 10) as u8));
        out
    }
}

/// An integer written in decimal.
pub fn dec_int(n: i64) -> (r: String)
    ensures
        r@ == decimal_int(n as int),
{
    if n < 0 {
        let m: u64 = (-(n as i128)) as u64;
        let mut out = String::new();
        out.push('-');
        let d = dec(m);
        out.append(&d);
        assert(out@ =~= seq!['-'] + decimal(m as nat));
        out
    } else {
        dec(n as u64)
    }
}

/// The value of the digits from `from` on, where it is below the bound.
fn digits_value(v: &Vec<char>, from: usize, bound: u128) -> (r: Option<u128>)
    requires
        from <= v@.len(),
        bound < 0x1_0000_0000_0000_0000_0000,
    ensures
        ({
            let d = v@.skip(from as int);
            match r {
                Some(n) => d.len() > 0 && all_digits(d) && n == value_of(d) && n < bound,
                None => d.len() == 0 || !all_digits(d) || value_of(d) >= bound,
            }
        }),
{
    let ghost d = v@.skip(from as int);
    if from == v.len() {
        return None;
    }
    let mut n: u128 = 0;
    let mut over = false;
    let mut i: usize = from;
    assert(d.take(0).len() == 0);
    while i < v.len()
        invariant
            d == v@.skip(from as int),
            from <= i <= v@.len(),
            bound < 0x1_0000_0000_0000_0000_0000,
            forall|j: int| 0 <= j < i - from ==> is_digit(d[j]),
            !over ==> n < bound || i == from,
            !over ==> n < 0x1_0000_0000_0000_0000_0000 && n == value_of(d.take(i - from)),
            over ==> value_of(d.take(i - from)) >= bound,
        decreases v@.len() - i,
    {
        let ghost k = i - from;
        assert(d[k] == v@[i as int]);
        if !digit(v[i]) {
            assert(!is_digit(d[k]));
            return None;
        }
        let x: u128 = (v[i] as u32 - 0x30) as u128;
        proof {
            assert(d.take(k + 1).drop_last() =~= d.take(k));
            assert(d.take(k + 1).last() == d[k]);
        }
        if !over {
            n = n * 10 + x;
            if n >= bound {
                over = true;
            }
        }
        i = i + 1;
    }
    assert(d.take(d.len() as int) =~= d);
    if over {
        None
    } else {
        Some(n)
    }
}

/// The natural number a text spells, where a `u64` holds it.
pub open spec fn natural_u64(s: Seq<char>) -> Option<u64> {
    match natural(s) {
        Some(n) => if n <= u64::MAX {
            Some(n as u64)
        } else {
            None
        },
        None => None,
    }
}

pub fn parse_u64(s: &str) -> (r: Option<u64>)
    ensures
        r == natural_u64(s@),
{
    let v = chars_of(s);
    let from: usize = if v.len() > 0 && v[0] == '+' {
        1
    } else {
        0
    };
    assert(v@.skip(0) =~= v@);
    match digits_value(&v, from, 0x1_0000_0000_0000_0000) {
        Some(n) => Some(n as u64),
        None => None,
    }
}

/// The integer a text spells, where an `i64` holds it.
pub open spec fn integer_i64(s: Seq<char>) -> Option<i64> {
    match integer(s) {
        Some(n) => if i64::MIN <= n <= i64::MAX {
            Some(n as i64)
        } else {
            None
        },
        None => None,
    }
}

pub fn parse_i64(s: &str) -> (r: Option<i64>)
    ensures
        r == integer_i64(s@),
{
    let v = chars_of(s);
    assert(v@.skip(0) =~= v@);
    if v.len() > 0 && v[0] == '-' {
        match digits_value(&v, 1, 0x8000_0000_0000_0001) {
            Some(n) => Some((-(n as i128)) as i64),
            None => None,
        }
    } else {
        let from: usize = if v.len() > 0 && v[0] == '+' {
            1
        } else {
            0
        };
        match digits_value(&v, from, 0x8000_0000_0000_0000) {
            Some(n) => Some(n as i64),
            None => None,
        }
    }
}

/// The integer a text spells, where an `i32` holds it.
pub open spec fn integer_i32(s: Seq<char>) -> Option<i32> {
    match integer(s) {
        Some(n) => if i32::MIN <= n <= i32::MAX {
            Some(n as i32)
        } else {
            None
        },
        None => None,
    }
}

pub fn parse_i32(s: &str) -> (r: Option<i32>)
    ensures
        r == integer_i32(s@),
{
    match parse_i64(s) {
        Some(n) => if i32::MIN as i64 <= n && n <= i32::MAX as i64 {
            Some(n as i32)
        } else {
            None
        },
        None => None,
    }
}

/// The list, borrowed.
pub fn borrowed(v: &Vec<String>) -> (r: Vec<&str>)
    ensures
        views(r@) == texts(v@),
        r@.len() == v@.len(),
{
    let mut out: Vec<&str> = Vec::new();
    let mut i: usize = 0;
    while i < v.len()
        invariant
            i <= v@.len(),
            out@.len() == i,
            forall|j: int| 0 <= j < i ==> (#[trigger] out@[j])@ == v@[j]@,
        decreases v@.len() - i,
    {
        out.push(v[i].as_str());
        i = i + 1;
    }
    assert(views(out@) =~= texts(v@));
    out
}

/// Where the space that begins at `from` ends.
pub fn skip_space(v: &Vec<char>, from: usize) -> (r: usize)
    requires
        from <= v@.len(),
    ensures
        from <= r <= v@.len(),
        v@.skip(r as int) == trimmed_start(v@.skip(from as int)),
{
    let mut i: usize = from;
    while i < v.len() && space(v[i])
        invariant
            from <= i <= v@.len(),
            trimmed_start(v@.skip(i as int)) == trimmed_start(v@.skip(from as int)),
        decreases v@.len() - i,
    {
        assert(v@.skip(i as int)[0] == v@[i as int]);
        assert(v@.skip(i as int).skip(1) =~= v@.skip(i + 1));
        i = i + 1;
    }
    assert(i < v@.len() ==> v@.skip(i as int)[0] == v@[i as int]);
    i
}

/// Finding a character in the rest of a text is finding it in the text from
/// there on.
pub proof fn lemma_find_char_skip(s: Seq<char>, c: char, k: int, from: int)
    requires
        0 <= k <= s.len(),
        0 <= from,
    ensures
        find_char(s.skip(k), c, from) == match find_char(s, c, k + from) {
            Some(i) => Some(i - k),
            None => None,
        },
    decreases s.len() - k - from,
{
    if from < s.len() - k {
        assert(s.skip(k)[from] == s[k + from]);
        if s[k + from] != c {
            lemma_find_char_skip(s, c, k, from + 1);
        }
    }
}

// ---------------------------------------------------------------------------
// What is written can be read
// ---------------------------------------------------------------------------
/// Is the character nowhere in the text?
pub open spec fn free_of(s: Seq<char>, c: char) -> bool {
    forall|i: int| 0 <= i < s.len() ==> s[i] != c
}

/// Two texts without the character are together without it.
pub proof fn lemma_free_together(a: Seq<char>, b: Seq<char>, c: char)
    requires
        free_of(a, c),
        free_of(b, c),
    ensures
        free_of(a + b, c),
{
}

proof fn lemma_split_shift(s: Seq<char>, c: char, k: int, start: int, i: int)
    requires
        0 <= k,
        0 <= start <= i,
        k + i <= s.len(),
    ensures
        split_from(s, c, c, k + start, k + i) == split_from(s.skip(k), c, c, start, i),
    decreases s.len() - k - i,
{
    let t = s.skip(k);
    assert(t.subrange(start, t.len() as int) =~= s.subrange(k + start, s.len() as int));
    if k + i < s.len() {
        assert(t[i] == s[k + i]);
        assert(t.subrange(start, i) =~= s.subrange(k + start, k + i));
        if s[k + i] == c {
            lemma_split_shift(s, c, k, i + 1, i + 1);
        } else {
            lemma_split_shift(s, c, k, start, i + 1);
        }
    }
}

proof fn lemma_split_over(s: Seq<char>, c: char, i: int, n: int)
    requires
        0 <= i <= n <= s.len(),
        forall|k: int| i <= k < n ==> s[k] != c,
    ensures
        split_from(s, c, c, 0, i) == split_from(s, c, c, 0, n),
    decreases n - i,
{
    if i < n {
        lemma_split_over(s, c, i + 1, n);
    }
}

/// A text without the character is one field.
pub proof fn lemma_one_field(s: Seq<char>, c: char)
    requires
        free_of(s, c),
    ensures
        fields(s, c) == seq![s],
{
    lemma_split_over(s, c, 0, s.len() as int);
    assert(s.subrange(0, s.len() as int) =~= s);
}

proof fn lemma_split_join(a: Seq<char>, c: char, b: Seq<char>, start: int, i: int)
    requires
        0 <= start <= i <= a.len(),
    ensures
        split_from(a + seq![c] + b, c, c, start, i) == split_from(a, c, c, start, i) + fields(b, c),
    decreases a.len() - i,
{
    let s = a + seq![c] + b;
    let n = a.len() as int;
    if i == n {
        assert(s[n] == c);
        assert(s.subrange(start, n) =~= a.subrange(start, n));
        lemma_split_shift(s, c, n + 1, 0, 0);
        assert(s.skip(n + 1) =~= b);
    } else {
        assert(s[i] == a[i]);
        assert(s.subrange(start, i) =~= a.subrange(start, i));
        if a[i] == c {
            lemma_split_join(a, c, b, i + 1, i + 1);
            assert(seq![a.subrange(start, i)] + (split_from(a, c, c, i + 1, i + 1) + fields(b, c))
                =~= (seq![a.subrange(start, i)] + split_from(a, c, c, i + 1, i + 1)) + fields(b, c));
        } else {
            lemma_split_join(a, c, b, start, i + 1);
        }
    }
}

/// The fields of two texts with the character between them are those of the one
/// and then those of the other.
pub proof fn lemma_fields_join(a: Seq<char>, c: char, b: Seq<char>)
    ensures
        fields(a + seq![c] + b, c) == fields(a, c) + fields(b, c),
{
    lemma_split_join(a, c, b, 0, 0);
}

/// What stands before the first of the character is the first field, and the
/// other fields are those of the rest.
pub proof fn lemma_first_field(a: Seq<char>, c: char, b: Seq<char>)
    requires
        free_of(a, c),
    ensures
        fields(a + seq![c] + b, c) == seq![a] + fields(b, c),
{
    lemma_fields_join(a, c, b);
    lemma_one_field(a, c);
}

/// There is always a field, if only an empty one.
pub proof fn lemma_some_field(s: Seq<char>, c: char)
    ensures
        fields(s, c).len() >= 1,
{
    lemma_some_piece(s, c, 0, 0);
}

proof fn lemma_some_piece(s: Seq<char>, c: char, start: int, i: int)
    ensures
        split_from(s, c, c, start, i).len() >= 1,
    decreases s.len() - i,
{
    if i < s.len() && s[i] != c {
        lemma_some_piece(s, c, start, i + 1);
    }
}

proof fn lemma_lines_over(s: Seq<char>, i: int, n: int)
    requires
        0 <= i <= n <= s.len(),
        forall|k: int| i <= k < n ==> s[k] != '\n',
    ensures
        lines_from(s, 0, i) == lines_from(s, 0, n),
    decreases n - i,
{
    if i < n {
        lemma_lines_over(s, i + 1, n);
    }
}

proof fn lemma_lines_shift(s: Seq<char>, k: int, start: int, i: int)
    requires
        0 <= k,
        0 <= start <= i,
        k + i <= s.len(),
    ensures
        lines_from(s, k + start, k + i) == lines_from(s.skip(k), start, i),
    decreases s.len() - k - i,
{
    let t = s.skip(k);
    assert(t.subrange(start, t.len() as int) =~= s.subrange(k + start, s.len() as int));
    if k + i < s.len() {
        assert(t[i] == s[k + i]);
        assert(t.subrange(start, i) =~= s.subrange(k + start, k + i));
        if s[k + i] == '\n' {
            lemma_lines_shift(s, k, i + 1, i + 1);
        } else {
            lemma_lines_shift(s, k, start, i + 1);
        }
    }
}

/// What stands before the first line feed is the first line, and the other lines
/// are those of the rest.
pub proof fn lemma_first_line(a: Seq<char>, b: Seq<char>)
    requires
        free_of(a, '\n'),
    ensures
        lines_of(a + seq!['\n'] + b) == seq![chomped(a)] + lines_of(b),
{
    let s = a + seq!['\n'] + b;
    let n = a.len() as int;
    assert forall|k: int| 0 <= k < n implies s[k] != '\n' by {
        assert(s[k] == a[k]);
    }
    lemma_lines_over(s, 0, n);
    assert(s[n] == '\n');
    assert(s.subrange(0, n) =~= a);
    lemma_lines_shift(s, n + 1, 0, 0);
    assert(s.skip(n + 1) =~= b);
}

proof fn lemma_lines_join_from(a: Seq<char>, b: Seq<char>, start: int, i: int)
    requires
        0 <= start <= i <= a.len(),
    ensures
        lines_from(a + seq!['\n'] + b, start, i) == lines_from(a + seq!['\n'], start, i) + lines_of(
            b,
        ),
    decreases a.len() - i,
{
    let s = a + seq!['\n'] + b;
    let t = a + seq!['\n'];
    let n = a.len() as int;
    assert(s.subrange(start, i) =~= t.subrange(start, i));
    if i == n {
        assert(s[n] == '\n' && t[n] == '\n');
        lemma_lines_shift(s, n + 1, 0, 0);
        assert(s.skip(n + 1) =~= b);
        let one = seq![chomped(s.subrange(start, n))];
        assert(lines_from(t, n + 1, n + 1) =~= Seq::empty());
        assert(one + Seq::<Seq<char>>::empty() =~= one);
    } else {
        assert(s[i] == a[i] && t[i] == a[i]);
        if a[i] == '\n' {
            lemma_lines_join_from(a, b, i + 1, i + 1);
            let one = seq![chomped(s.subrange(start, i))];
            assert(one + (lines_from(t, i + 1, i + 1) + lines_of(b)) =~= (one + lines_from(
                t,
                i + 1,
                i + 1,
            )) + lines_of(b));
        } else {
            lemma_lines_join_from(a, b, start, i + 1);
        }
    }
}

/// The lines of a text that ends in a line feed, and behind it those of another.
pub proof fn lemma_lines_join(a: Seq<char>, b: Seq<char>)
    ensures
        lines_of(a + seq!['\n'] + b) == lines_of(a + seq!['\n']) + lines_of(b),
{
    lemma_lines_join_from(a, b, 0, 0);
}

proof fn lemma_words_shift(s: Seq<char>, k: int, start: int, i: int)
    requires
        0 <= k,
        0 <= start <= i,
        k + i <= s.len(),
    ensures
        words_from(s, k + start, k + i) == words_from(s.skip(k), start, i),
    decreases s.len() - k - i,
{
    let t = s.skip(k);
    if k + i < s.len() {
        assert(s[k + i] == t[i]);
        assert(s.subrange(k + start, k + i) =~= t.subrange(start, i));
        if is_space(s[k + i]) {
            lemma_words_shift(s, k, i + 1, i + 1);
        } else {
            lemma_words_shift(s, k, start, i + 1);
        }
    } else {
        assert(s.subrange(k + start, s.len() as int) =~= t.subrange(start, t.len() as int));
    }
}

proof fn lemma_words_join_from(a: Seq<char>, b: Seq<char>, start: int, i: int)
    requires
        0 <= start <= i <= a.len(),
    ensures
        words_from(a + seq![' '] + b, start, i) == words_from(a, start, i) + words_of(b),
    decreases a.len() - i,
{
    let s = a + seq![' '] + b;
    let n = a.len() as int;
    assert(s.subrange(start, i) =~= a.subrange(start, i));
    if i == n {
        assert(s[n] == ' ');
        assert(is_space(' '));
        lemma_words_shift(s, n + 1, 0, 0);
        assert(s.skip(n + 1) =~= b);
    } else {
        assert(s[i] == a[i]);
        if is_space(a[i]) {
            lemma_words_join_from(a, b, i + 1, i + 1);
            let one = if start < i {
                seq![a.subrange(start, i)]
            } else {
                Seq::empty()
            };
            let rest = words_from(a, i + 1, i + 1);
            assert(one + (rest + words_of(b)) =~= (one + rest) + words_of(b));
        } else {
            lemma_words_join_from(a, b, start, i + 1);
        }
    }
}

/// The words of two texts with a space between them are those of the one and then
/// those of the other.
pub proof fn lemma_words_join(a: Seq<char>, b: Seq<char>)
    ensures
        words_of(a + seq![' '] + b) == words_of(a) + words_of(b),
{
    lemma_words_join_from(a, b, 0, 0);
}

proof fn lemma_words_over(s: Seq<char>, i: int)
    requires
        0 <= i <= s.len(),
        forall|k: int| i <= k < s.len() ==> !is_space(s[k]),
    ensures
        words_from(s, 0, i) == words_from(s, 0, s.len() as int),
    decreases s.len() - i,
{
    if i < s.len() {
        lemma_words_over(s, i + 1);
    }
}

/// A text without any space in it is one word.
pub proof fn lemma_one_word(s: Seq<char>)
    requires
        s.len() > 0,
        forall|k: int| 0 <= k < s.len() ==> !is_space(s[k]),
    ensures
        words_of(s) == seq![s],
{
    lemma_words_over(s, 0);
    assert(s.subrange(0, s.len() as int) =~= s);
}

/// The lines that a text has once it is ended by a line feed: one more where it ended
/// in one already, and otherwise as many, the last without its carriage return.
pub open spec fn ended_lines(s: Seq<char>, ls: Seq<Seq<char>>) -> Seq<Seq<char>> {
    if s.len() == 0 || s.last() == '\n' {
        ls.push(Seq::empty())
    } else {
        ls.drop_last().push(chomped(ls.last()))
    }
}

proof fn lemma_ended_from(s: Seq<char>, start: int, i: int)
    requires
        0 <= start <= i <= s.len(),
        forall|k: int| start <= k < i ==> s[k] != '\n',
        start < s.len() || s.len() == 0 || s.last() == '\n',
    ensures
        lines_from(s + seq!['\n'], start, i) == ended_lines(s, lines_from(s, start, i)),
        s.len() > 0 && s.last() != '\n' ==> lines_from(s, start, i).len() > 0,
    decreases s.len() - i,
{
    let t = s + seq!['\n'];
    let n = s.len() as int;
    assert(t.subrange(start, i) =~= s.subrange(start, i));
    if i == n {
        assert(t[n] == '\n');
        assert(lines_from(t, n + 1, n + 1) =~= Seq::empty());
        let one = seq![chomped(t.subrange(start, n))];
        assert(one + Seq::<Seq<char>>::empty() =~= one);
        if start < n {
            assert(s[n - 1] != '\n');
            let whole = seq![s.subrange(start, n)];
            assert(whole.drop_last().push(chomped(whole.last())) =~= one);
        } else {
            assert(t.subrange(n, n) =~= Seq::empty());
            assert(Seq::<Seq<char>>::empty().push(Seq::empty()) =~= one);
        }
    } else {
        assert(t[i] == s[i]);
        if s[i] == '\n' {
            let one = seq![chomped(s.subrange(start, i))];
            if i + 1 < n || s.last() == '\n' {
                lemma_ended_from(s, i + 1, i + 1);
                let rest = lines_from(s, i + 1, i + 1);
                assert(one + ended_lines(s, rest) =~= ended_lines(s, one + rest));
            }
        } else {
            lemma_ended_from(s, start, i + 1);
        }
    }
}

/// What ending a text by a line feed makes of its lines.
pub proof fn lemma_ended(s: Seq<char>)
    ensures
        lines_of(s + seq!['\n']) == ended_lines(s, lines_of(s)),
        s.len() > 0 && s.last() != '\n' ==> lines_of(s).len() > 0,
{
    lemma_ended_from(s, 0, 0);
}

proof fn lemma_blank_lines_from(s: Seq<char>, start: int, i: int)
    requires
        0 <= start <= i <= s.len(),
        is_blank(s),
    ensures
        forall|k: int| 0 <= k < lines_from(s, start, i).len() ==> is_blank(#[trigger] lines_from(s, start, i)[k]),
    decreases s.len() - i,
{
    let all = lines_from(s, start, i);
    if i >= s.len() {
        if start < s.len() {
            assert(all =~= seq![s.subrange(start, s.len() as int)]);
            assert(is_blank(all[0]));
            assert forall|k: int| 0 <= k < all.len() implies is_blank(#[trigger] all[k]) by {
                assert(k == 0);
            }
        }
    } else if s[i] == '\n' {
        lemma_blank_lines_from(s, i + 1, i + 1);
        let one = seq![chomped(s.subrange(start, i))];
        assert(is_blank(one[0]));
        let rest = lines_from(s, i + 1, i + 1);
        assert(all == one + rest);
        assert forall|k: int| 0 <= k < all.len() implies is_blank(#[trigger] all[k]) by {
            if k > 0 {
                assert(all[k] == rest[k - 1]);
            }
        }
    } else {
        lemma_blank_lines_from(s, start, i + 1);
        assert(all == lines_from(s, start, i + 1));
    }
}

/// The lines of a text with nothing but space in it are blank.
pub proof fn lemma_blank_lines(s: Seq<char>)
    requires
        is_blank(s),
    ensures
        forall|k: int| 0 <= k < lines_of(s).len() ==> is_blank(#[trigger] lines_of(s)[k]),
{
    lemma_blank_lines_from(s, 0, 0);
}

proof fn lemma_trimmed_start_push(s: Seq<char>, c: char)
    requires
        !is_blank(s),
    ensures
        trimmed_start(s.push(c)) == trimmed_start(s).push(c),
    decreases s.len(),
{
    if is_space(s[0]) {
        assert(s.push(c).skip(1) =~= s.skip(1).push(c));
        assert forall|i: int| 0 <= i < s.len() && !is_space(s[i]) implies !is_blank(s.skip(1)) by {
            assert(s.skip(1)[i - 1] == s[i]);
        }
        lemma_trimmed_start_push(s.skip(1), c);
    }
}

/// The carriage return that ends a line is trimmed with the rest of its space, and
/// does not keep a line from being blank.
pub proof fn lemma_chomped_trims_alike(s: Seq<char>)
    ensures
        trimmed(chomped(s)) == trimmed(s) || is_blank(s),
        is_blank(chomped(s)) <==> is_blank(s),
{
    let t = chomped(s);
    if t != s {
        assert(s =~= t.push('\r'));
        assert(is_space('\r'));
        if is_blank(t) {
            assert(is_blank(s));
        } else {
            let i = choose|i: int| 0 <= i < t.len() && !is_space(t[i]);
            assert(s[i] == t[i]);
            lemma_trimmed_start_push(t, '\r');
            assert(trimmed_start(t).push('\r').drop_last() =~= trimmed_start(t));
        }
    }
}

/// A text that ends in a line feed has a line.
pub proof fn lemma_some_line(a: Seq<char>)
    ensures
        lines_of(a + seq!['\n']).len() >= 1,
{
    lemma_some_line_from(a, 0, 0);
}

proof fn lemma_some_line_from(a: Seq<char>, start: int, i: int)
    requires
        0 <= start <= i <= a.len(),
    ensures
        lines_from(a + seq!['\n'], start, i).len() >= 1,
    decreases a.len() - i,
{
    let t = a + seq!['\n'];
    if i < a.len() && t[i] != '\n' {
        lemma_some_line_from(a, start, i + 1);
    }
}

/// Is the character in none of the texts?
pub open spec fn all_free_of(v: Seq<Seq<char>>, c: char) -> bool {
    forall|j: int| 0 <= j < v.len() ==> free_of(#[trigger] v[j], c)
}

proof fn lemma_pieces_free(s: Seq<char>, c: char, start: int, i: int)
    requires
        0 <= start <= i <= s.len(),
        forall|k: int| start <= k < i ==> s[k] != c,
    ensures
        all_free_of(split_from(s, c, c, start, i), c),
    decreases s.len() - i,
{
    if i < s.len() {
        if s[i] == c {
            lemma_pieces_free(s, c, i + 1, i + 1);
            let one = s.subrange(start, i);
            assert(free_of(one, c)) by {
                assert forall|k: int| 0 <= k < one.len() implies one[k] != c by {
                    assert(one[k] == s[start + k]);
                }
            }
            let rest = split_from(s, c, c, i + 1, i + 1);
            let all = seq![one] + rest;
            assert forall|j: int| 0 <= j < all.len() implies free_of(#[trigger] all[j], c) by {
                if j > 0 {
                    assert(all[j] == rest[j - 1]);
                }
            }
        } else {
            lemma_pieces_free(s, c, start, i + 1);
        }
    } else {
        let one = s.subrange(start, s.len() as int);
        assert(free_of(one, c)) by {
            assert forall|k: int| 0 <= k < one.len() implies one[k] != c by {
                assert(one[k] == s[start + k]);
            }
        }
    }
}

/// No field holds the character between the fields.
pub proof fn lemma_fields_are_free(s: Seq<char>, c: char)
    ensures
        all_free_of(fields(s, c), c),
{
    lemma_pieces_free(s, c, 0, 0);
}

/// Fields that were joined are the fields again.
pub proof fn lemma_joined_fields(f: Seq<Seq<char>>, c: char)
    requires
        f.len() > 0,
        all_free_of(f, c),
    ensures
        fields(joined(f, seq![c]), c) == f,
    decreases f.len(),
{
    if f.len() == 1 {
        lemma_one_field(f[0], c);
        assert(seq![f[0]] =~= f);
    } else {
        let front = f.drop_last();
        assert forall|j: int| 0 <= j < front.len() implies free_of(#[trigger] front[j], c) by {
            assert(front[j] == f[j]);
        }
        lemma_joined_fields(front, c);
        lemma_fields_join(joined(front, seq![c]), c, f.last());
        lemma_one_field(f.last(), c);
        assert(front + seq![f.last()] =~= f);
    }
}

/// A number written in decimal is digits, and they spell the number.
pub proof fn lemma_decimal(n: nat)
    ensures
        decimal(n).len() > 0,
        all_digits(decimal(n)),
        value_of(decimal(n)) == n,
    decreases n,
{
    reveal_with_fuel(value_of, 2);
    if n < 10 {
        assert(decimal(n).drop_last() =~= Seq::<char>::empty());
    } else {
        lemma_decimal(n / 10);
        let d = decimal(n);
        assert(d.drop_last() =~= decimal(n / 10));
        assert(d.last() == digit_char((n % 10) as int));
        assert forall|i: int| 0 <= i < d.len() implies is_digit(d[i]) by {
            if i < d.len() - 1 {
                assert(d[i] == decimal(n / 10)[i]);
            }
        }
    }
}

/// An integer written in decimal is read back as that integer.
pub proof fn lemma_decimal_is_read_back(n: int)
    ensures
        integer(decimal_int(n)) == Some(n),
        forall|i: int|
            0 <= i < decimal_int(n).len() ==> is_digit(#[trigger] decimal_int(n)[i])
                || decimal_int(n)[i] == '-',
{
    if n < 0 {
        lemma_decimal((-n) as nat);
        let s = decimal_int(n);
        assert(s.skip(1) =~= decimal((-n) as nat));
        assert forall|i: int| 0 <= i < s.len() implies is_digit(#[trigger] s[i]) || s[i] == '-' by {
            if i > 0 {
                assert(s[i] == decimal((-n) as nat)[i - 1]);
            }
        }
    } else {
        lemma_decimal(n as nat);
        assert(is_digit(decimal(n as nat)[0]));
    }
}

/// A text with every `a` in it turned into `b`.
pub open spec fn turned(s: Seq<char>, a: char, b: char) -> Seq<char> {
    s.map_values(
        |c: char|
            if c == a {
                b
            } else {
                c
            },
    )
}

pub fn turn(s: &str, a: char, b: char) -> (r: String)
    ensures
        r@ == turned(s@, a, b),
{
    let v = chars_of(s);
    let mut out = String::new();
    let mut i: usize = 0;
    assert(out@ =~= turned(s@, a, b).take(0));
    while i < v.len()
        invariant
            i <= v@.len(),
            v@ == s@,
            out@ == turned(s@, a, b).take(i as int),
        decreases v@.len() - i,
    {
        let c = if v[i] == a {
            b
        } else {
            v[i]
        };
        out.push(c);
        assert(turned(s@, a, b).take(i + 1) =~= turned(s@, a, b).take(i as int).push(c));
        i = i + 1;
    }
    assert(turned(s@, a, b).take(s@.len() as int) =~= turned(s@, a, b));
    out
}

// ---------------------------------------------------------------------------
// Lines
// ---------------------------------------------------------------------------
/// Texts, each ended by a line feed.
pub open spec fn as_lines(v: Seq<Seq<char>>) -> Seq<char>
    decreases v.len(),
{
    if v.len() == 0 {
        Seq::empty()
    } else {
        as_lines(v.drop_last()) + v.last() + "\n"@
    }
}

/// The texts, each ended by a line feed.
pub fn end_lines(v: &Vec<String>) -> (r: String)
    ensures
        r@ == as_lines(texts(v@)),
{
    let ghost all = texts(v@);
    let mut out = String::new();
    let mut i: usize = 0;
    assert(out@ =~= as_lines(all.take(0)));
    while i < v.len()
        invariant
            i <= v@.len(),
            all == texts(v@),
            out@ == as_lines(all.take(i as int)),
        decreases v@.len() - i,
    {
        assert(all.take(i + 1).drop_last() =~= all.take(i as int));
        assert(all.take(i + 1).last() == v@[i as int]@);
        out.append(&v[i]);
        out.append("\n");
        i = i + 1;
    }
    assert(all.take(all.len() as int) =~= all);
    out
}

/// As many texts as were ended by a line feed can be read back, or more.
pub proof fn lemma_as_lines_count(v: Seq<Seq<char>>)
    ensures
        lines_of(as_lines(v)).len() >= v.len(),
    decreases v.len(),
{
    if v.len() > 0 {
        let front = as_lines(v.drop_last());
        lemma_as_lines_count(v.drop_last());
        reveal_strlit("\n");
        assert("\n"@ =~= seq!['\n']);
        let last = v.last() + seq!['\n'];
        assert(as_lines(v) =~= front + last);
        if v.len() == 1 {
            assert(front + last =~= last);
            lemma_some_line(v.last());
        } else {
            let w = v.drop_last();
            let head = as_lines(w.drop_last()) + w.last();
            assert(front =~= head + seq!['\n']);
            assert(front + last =~= head + seq!['\n'] + last);
            lemma_lines_join(head, last);
            lemma_some_line(v.last());
        }
    }
}

/// Two lists of texts, one behind the other, each text ended by a line feed.
pub proof fn lemma_as_lines_join(a: Seq<Seq<char>>, b: Seq<Seq<char>>)
    ensures
        as_lines(a + b) == as_lines(a) + as_lines(b),
    decreases b.len(),
{
    if b.len() == 0 {
        assert(a + b =~= a);
        assert(as_lines(a) + as_lines(b) =~= as_lines(a));
    } else {
        lemma_as_lines_join(a, b.drop_last());
        assert((a + b).drop_last() =~= a + b.drop_last());
        assert(as_lines(a) + (as_lines(b.drop_last()) + b.last() + "\n"@) =~= as_lines(a)
            + as_lines(b.drop_last()) + b.last() + "\n"@);
    }
}

/// Can each of the texts stand in a line of its own and be read back?
pub open spec fn line_like(v: Seq<Seq<char>>) -> bool {
    all_free_of(v, '\n') && all_free_of(v, '\r')
}

/// What was written line by line is read back line by line.
pub proof fn lemma_lines_are_read_back(v: Seq<Seq<char>>)
    requires
        line_like(v),
    ensures
        lines_of(as_lines(v)) == v,
    decreases v.len(),
{
    if v.len() == 0 {
        assert(lines_of(as_lines(v)) =~= v);
    } else {
        let rest = v.skip(1);
        assert forall|j: int| 0 <= j < rest.len() implies free_of(#[trigger] rest[j], '\n')
            && free_of(rest[j], '\r') by {
            assert(rest[j] == v[j + 1]);
        }
        lemma_lines_are_read_back(rest);
        reveal_strlit("\n");
        assert("\n"@ =~= seq!['\n']);
        let one = seq![v[0]];
        assert(one + rest =~= v);
        lemma_as_lines_join(one, rest);
        assert(one.drop_last() =~= Seq::<Seq<char>>::empty());
        assert(as_lines(one.drop_last()) =~= Seq::<char>::empty());
        assert(as_lines(one) =~= v[0] + seq!['\n']);
        assert(as_lines(v) =~= v[0] + seq!['\n'] + as_lines(rest));
        assert(free_of(v[0], '\n') && free_of(v[0], '\r'));
        lemma_first_line(v[0], as_lines(rest));
        assert(chomped(v[0]) == v[0]);
    }
}

proof fn lemma_lines_like_from(s: Seq<char>, start: int, i: int)
    requires
        0 <= start <= i <= s.len(),
        forall|k: int| start <= k < i ==> s[k] != '\n',
        free_of(s, '\r'),
    ensures
        line_like(lines_from(s, start, i)),
    decreases s.len() - i,
{
    let all = lines_from(s, start, i);
    if i < s.len() {
        if s[i] == '\n' {
            lemma_lines_like_from(s, i + 1, i + 1);
            let one = s.subrange(start, i);
            assert forall|k: int| 0 <= k < one.len() implies one[k] != '\n' && one[k] != '\r' by {
                assert(one[k] == s[start + k]);
            }
            assert(chomped(one) == one);
            let rest = lines_from(s, i + 1, i + 1);
            assert forall|j: int| 0 <= j < all.len() implies free_of(#[trigger] all[j], '\n')
                && free_of(all[j], '\r') by {
                if j > 0 {
                    assert(all[j] == rest[j - 1]);
                }
            }
        } else {
            lemma_lines_like_from(s, start, i + 1);
        }
    } else {
        let one = s.subrange(start, s.len() as int);
        assert forall|k: int| 0 <= k < one.len() implies one[k] != '\n' && one[k] != '\r' by {
            assert(one[k] == s[start + k]);
        }
    }
}

/// The lines of a text without carriage returns can be written line by line again.
pub proof fn lemma_lines_are_line_like(s: Seq<char>)
    requires
        free_of(s, '\r'),
    ensures
        line_like(lines_of(s)),
{
    lemma_lines_like_from(s, 0, 0);
}

/// A text stands in whatever has it in the middle.
pub proof fn lemma_has_middle(a: Seq<char>, p: Seq<char>, b: Seq<char>)
    ensures
        has(a + p + b, p),
{
    let s = a + p + b;
    let i = a.len() as int;
    assert(s.subrange(i, i + p.len()) =~= p);
    assert(occurs_at(s, p, i));
}

/// Every `p` in the text, from the left, with `q` in its place.
pub open spec fn replaced(s: Seq<char>, p: Seq<char>, q: Seq<char>) -> Seq<char>
    decreases s.len(),
{
    match find(s, p) {
        Some(i) => if p.len() == 0 {
            s
        } else {
            proof {
                lemma_find_from(s, p, 0);
            }
            s.take(i) + q + replaced(s.skip(i + p.len()), p, q)
        },
        None => s,
    }
}

pub fn replace(s: &str, p: &str, q: &str) -> (r: String)
    requires
        p@.len() > 0,
    ensures
        r@ == replaced(s@, p@, q@),
{
    let v = chars_of(s);
    let w = chars_of(p);
    let n: usize = v.len();
    let mut out = String::new();
    let mut from: usize = 0;
    assert(v@.skip(0) =~= v@);
    assert(out@ + replaced(v@, p@, q@) =~= replaced(v@, p@, q@));
    loop
        invariant
            from <= n == v@.len(),
            v@ == s@,
            w@ == p@,
            p@.len() > 0,
            out@ + replaced(v@.skip(from as int), p@, q@) == replaced(s@, p@, q@),
        decreases n - from,
    {
        let ghost rest = v@.skip(from as int);
        proof {
            lemma_find_skip(v@, w@, from as int, 0);
            lemma_find_from(v@, w@, from as int);
        }
        match find_at(&v, &w, from) {
            None => {
                let t = slice(&v, from, n);
                assert(t@ =~= rest);
                out.append(&t);
                return out;
            },
            Some(i) => {
                let k: usize = i + w.len();
                let t = slice(&v, from, i);
                let ghost was = out@;
                assert(t@ =~= rest.take(i - from));
                assert(rest.skip(k - from) =~= v@.skip(k as int));
                out.append(&t);
                out.append(q);
                assert(was + (rest.take(i - from) + q@ + replaced(v@.skip(k as int), p@, q@))
                    =~= out@ + replaced(v@.skip(k as int), p@, q@));
                from = k;
            },
        }
    }
}

/// What is found behind a place is found in what stands behind it.
pub proof fn lemma_find_skip(s: Seq<char>, p: Seq<char>, k: int, from: int)
    requires
        0 <= k <= s.len(),
        0 <= from,
    ensures
        match find_from(s.skip(k), p, from) {
            Some(i) => find_from(s, p, k + from) == Some(k + i),
            None => find_from(s, p, k + from) is None,
        },
    decreases s.len() - k - from + 1,
{
    if k + from + p.len() <= s.len() {
        assert(s.skip(k).subrange(from, from + p.len()) =~= s.subrange(
            k + from,
            k + from + p.len(),
        ));
        if !occurs_at(s.skip(k), p, from) {
            lemma_find_skip(s, p, k, from + 1);
        }
    }
}

/// The last place at or before `to` where `p` stands.
pub open spec fn rfind(s: Seq<char>, p: Seq<char>, to: int) -> Option<int>
    decreases to + 1,
{
    if to < 0 {
        None
    } else if occurs_at(s, p, to) {
        Some(to)
    } else {
        rfind(s, p, to - 1)
    }
}

/// Everything behind the last `p`, if it stands there at all.
pub open spec fn after_last_text(s: Seq<char>, p: Seq<char>) -> Option<Seq<char>> {
    match rfind(s, p, s.len() as int) {
        Some(i) => Some(s.skip(i + p.len())),
        None => None,
    }
}

pub fn tail_after_text(s: &str, p: &str) -> (r: Option<String>)
    ensures
        opt_string(r) == after_last_text(s@, p@),
{
    let v = chars_of(s);
    let w = chars_of(p);
    let n: usize = v.len();
    let mut i: usize = n;
    loop
        invariant
            i <= n == v@.len(),
            v@ == s@,
            w@ == p@,
            rfind(s@, p@, i as int) == rfind(s@, p@, s@.len() as int),
        decreases i,
    {
        if stands_at(&v, &w, i) {
            let k: usize = i + w.len();
            assert(v@.subrange(k as int, n as int) =~= s@.skip(k as int));
            return Some(slice(&v, k, n));
        }
        if i == 0 {
            assert(rfind(s@, p@, -1) is None);
            return None;
        }
        i = i - 1;
    }
}

/// The Unicode control characters.
pub open spec fn is_control(c: char) -> bool {
    c as u32 <= 0x1f || 0x7f <= c as u32 <= 0x9f
}

pub fn control(c: char) -> (r: bool)
    ensures
        r == is_control(c),
{
    let n: u32 = c as u32;
    n <= 0x1f || (0x7f <= n && n <= 0x9f)
}

/// What is not in a text is not in it trimmed either.
pub proof fn lemma_trimmed_has_no_more(s: Seq<char>, p: Seq<char>)
    requires
        !(has(s, p)),
    ensures
        !(has(trimmed(s), p)),
{
    let a = trimmed_start(s);
    let t = trimmed(s);
    lemma_trimmed_start(s);
    lemma_trimmed_end(a);
    let k = s.len() - a.len();
    assert forall|i: int| !occurs_at(t, p, i) by {
        if occurs_at(t, p, i) {
            assert(t.subrange(i, i + p.len()) =~= s.subrange(k + i, k + i + p.len()));
            assert(occurs_at(s, p, k + i));
        }
    }
}

/// What is trimmed off is all the space on either side, and nothing else.
pub proof fn lemma_a_trim_takes_the_space_around(a: Seq<char>, s: Seq<char>, b: Seq<char>)
    requires
        is_blank(a),
        is_blank(b),
        s.len() > 0,
        !is_space(s[0]),
        !is_space(s.last()),
    ensures
        trimmed(a + s + b) == s,
        trimmed_start(a + s + b) == s + b,
        trimmed_end(a + s + b) == a + s,
{
    lemma_space_before_goes(a, s + b);
    assert(a + s + b =~= a + (s + b));
    assert((s + b)[0] == s[0]);
    lemma_space_behind_goes(s, b);
    assert((a + s).last() == s.last());
    lemma_space_behind_goes(a + s, b);
}

proof fn lemma_space_before_goes(a: Seq<char>, s: Seq<char>)
    requires
        is_blank(a),
        s.len() > 0,
        !is_space(s[0]),
    ensures
        trimmed_start(a + s) == s,
    decreases a.len(),
{
    if a.len() == 0 {
        assert(a + s =~= s);
    } else {
        assert((a + s)[0] == a[0]);
        assert((a + s).skip(1) =~= a.skip(1) + s);
        assert forall|i: int| 0 <= i < a.skip(1).len() implies is_space(a.skip(1)[i]) by {
            assert(is_space(a[i + 1]));
        }
        lemma_space_before_goes(a.skip(1), s);
    }
}

proof fn lemma_space_behind_goes(s: Seq<char>, b: Seq<char>)
    requires
        is_blank(b),
        s.len() > 0,
        !is_space(s.last()),
    ensures
        trimmed_end(s + b) == s,
    decreases b.len(),
{
    if b.len() == 0 {
        assert(s + b =~= s);
    } else {
        assert((s + b).last() == b.last());
        assert(is_space(b[b.len() - 1]));
        assert((s + b).drop_last() =~= s + b.drop_last());
        assert forall|i: int| 0 <= i < b.drop_last().len() implies is_space(b.drop_last()[i]) by {
            assert(is_space(b[i]));
        }
        lemma_space_behind_goes(s, b.drop_last());
    }
}

/// What stands behind the last of a character holds none of it, and with what stands before
/// it makes the whole text.
pub proof fn lemma_what_stands_behind_the_last(a: Seq<char>, c: char, b: Seq<char>)
    requires
        free_of(b, c),
    ensures
        after_last(a + seq![c] + b, c) == b,
        after_last(b, c) == b,
{
    let s = a + seq![c] + b;
    let n = a.len() as int;
    lemma_rfind_char(s, c, s.len() as int);
    lemma_rfind_char(b, c, b.len() as int);
    let i = rfind_char(s, c, s.len() as int)->0;
    assert(s[n] == c);
    if i > n {
        assert(s[i] == b[i - n - 1]);
    }
    assert(s.skip(n + 1) =~= b);
}

/// A text is cut at the first of a character: what stands before holds none of it.
pub proof fn lemma_a_cut_is_at_the_first(a: Seq<char>, c: char, b: Seq<char>)
    requires
        free_of(a, c),
    ensures
        cut(a + seq![c] + b, c) == Some((a, b)),
        cut(a, c) is None,
{
    let s = a + seq![c] + b;
    let n = a.len() as int;
    lemma_find_char(s, c, 0);
    lemma_find_char(a, c, 0);
    assert(s[n] == c);
    let i = find_char(s, c, 0)->0;
    if i < n {
        assert(s[i] == a[i]);
    }
    assert(s.take(n) =~= a);
    assert(s.skip(n + 1) =~= b);
}

/// Of a list of texts the empty ones go and the others stay, in order.
pub proof fn lemma_only_the_empty_go(v: Seq<Seq<char>>, t: Seq<char>)
    ensures
        nonempty(v).contains(t) <==> v.contains(t) && t.len() > 0,
        (forall|i: int| 0 <= i < v.len() ==> (#[trigger] v[i]).len() > 0) ==> nonempty(v) == v,
    decreases v.len(),
{
    let kept = nonempty(v);
    if v.len() > 0 {
        let front = v.drop_last();
        let rest = nonempty(front);
        lemma_only_the_empty_go(front, t);
        if kept.contains(t) {
            let k = choose|k: int| 0 <= k < kept.len() && kept[k] == t;
            if k < rest.len() {
                assert(rest[k] == t);
                let i = choose|i: int| 0 <= i < front.len() && front[i] == t;
                assert(v[i] == t);
            } else {
                assert(v[v.len() - 1] == t);
            }
        }
        if v.contains(t) && t.len() > 0 {
            let i = choose|i: int| 0 <= i < v.len() && v[i] == t;
            if i < front.len() {
                assert(front[i] == t);
                let k = choose|k: int| 0 <= k < rest.len() && rest[k] == t;
                assert(kept[k] == t);
            } else {
                assert(kept.last() == t);
            }
        }
        if forall|i: int| 0 <= i < v.len() ==> (#[trigger] v[i]).len() > 0 {
            assert forall|i: int| 0 <= i < front.len() implies (#[trigger] front[i]).len() > 0 by {
                assert(v[i].len() > 0);
            }
            assert(v[v.len() - 1].len() > 0);
            assert(front.push(v.last()) =~= v);
        }
    } else {
        assert(kept =~= v);
    }
}

/// A text whose one character is turned into another keeps its length and every other
/// character, and holds no more of the first.
pub proof fn lemma_turning_keeps_the_rest(s: Seq<char>, a: char, b: char, i: int)
    requires
        0 <= i < s.len(),
    ensures
        turned(s, a, b).len() == s.len(),
        s[i] != a ==> turned(s, a, b)[i] == s[i],
        s[i] == a ==> turned(s, a, b)[i] == b,
        a != b ==> free_of(turned(s, a, b), a),
{
}

} // verus!
