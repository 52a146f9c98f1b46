//! Moving between strings and sequences of characters.

use vstd::prelude::*;

verus! {

/// Collects the characters of `s`, in order.
pub fn chars_of(s: &str) -> (out: Vec<char>)
    ensures
        out@ == s@,
{
    let mut out: Vec<char> = Vec::new();
    for c in it: s.chars()
        invariant
            it.seq() == s@,
            out@ == it.seq().take(it.index() as int),
    {
        out.push(c);
    }
    out
}

/// `String::push`: the string afterwards is the string before with `c`
/// as one more character at its end.
#[verifier::external_body]
pub(crate) fn push_char(s: &mut String, c: char)
    ensures
        final(s)@ == old(s)@.push(c),
{
    s.push(c)
}

/// The string made of `chars[from..to]`.
pub fn string_of(chars: &[char], from: usize, to: usize) -> (out: String)
    requires
        from <= to <= chars.len(),
    ensures
        out@ == chars@.subrange(from as int, to as int),
{
    let mut out = String::new();
    let mut i: usize = from;
    while i < to
        invariant
            from <= i <= to <= chars.len(),
            out@ == chars@.subrange(from as int, i as int),
        decreases to - i,
    {
        push_char(&mut out, chars[i]);
        i += 1;
    }
    out
}

/// Whitespace, as trimming understands it: a space, a tab, a newline, a
/// carriage return or a form feed.
pub open spec fn is_blank(c: char) -> bool {
    c == ' ' || c == '\t' || c == '\n' || c == '\r' || c == '\x0C'
}

/// The end of the longest run of whitespace that starts at `at`.
pub open spec fn blanks_end(s: Seq<char>, at: int) -> int
    decreases s.len() - at,
{
    if 0 <= at < s.len() && is_blank(s[at]) {
        blanks_end(s, at + 1)
    } else {
        at
    }
}

/// The start of the longest run of whitespace that ends at `end` and does
/// not reach back before `from`.
pub open spec fn blanks_start(s: Seq<char>, from: int, end: int) -> int
    decreases end,
{
    if 0 <= from < end <= s.len() && is_blank(s[end - 1]) {
        blanks_start(s, from, end - 1)
    } else {
        end
    }
}

/// `s` without the whitespace at its start and at its end.
pub open spec fn trim(s: Seq<char>) -> Seq<char> {
    let from = blanks_end(s, 0);
    s.subrange(from, blanks_start(s, from, s.len() as int))
}

/// What trimming leaves neither starts nor ends with whitespace, and what
/// it takes away on either side is whitespace only.
pub proof fn lemma_trim(s: Seq<char>)
    ensures
        trim(s).len() > 0 ==> !is_blank(trim(s).first()) && !is_blank(trim(s).last()),
        exists|a: int, b: int|
            0 <= a <= b <= s.len() && trim(s) == s.subrange(a, b) && (forall|k: int|
                0 <= k < a ==> is_blank(#[trigger] s[k])) && (forall|k: int|
                b <= k < s.len() ==> is_blank(#[trigger] s[k])),
{
    let a = blanks_end(s, 0);
    lemma_blanks_end(s, 0);
    let b = blanks_start(s, a, s.len() as int);
    lemma_blanks_start(s, a, s.len() as int);
    if trim(s).len() > 0 {
        assert(trim(s).first() == s[a]);
        assert(trim(s).last() == s[b - 1]);
    }
    assert(0 <= a <= b <= s.len() && trim(s) == s.subrange(a, b) && (forall|k: int|
        0 <= k < a ==> is_blank(#[trigger] s[k])) && (forall|k: int|
        b <= k < s.len() ==> is_blank(#[trigger] s[k])));
}

proof fn lemma_blanks_end(s: Seq<char>, at: int)
    requires
        0 <= at <= s.len(),
    ensures
        at <= blanks_end(s, at) <= s.len(),
        forall|k: int| at <= k < blanks_end(s, at) ==> is_blank(#[trigger] s[k]),
        blanks_end(s, at) < s.len() ==> !is_blank(s[blanks_end(s, at)]),
    decreases s.len() - at,
{
    if at < s.len() && is_blank(s[at]) {
        lemma_blanks_end(s, at + 1);
    }
}

proof fn lemma_blanks_start(s: Seq<char>, from: int, end: int)
    requires
        0 <= from <= end <= s.len(),
    ensures
        from <= blanks_start(s, from, end) <= end,
        forall|k: int| blanks_start(s, from, end) <= k < end ==> is_blank(#[trigger] s[k]),
        from < blanks_start(s, from, end) ==> !is_blank(s[blanks_start(s, from, end) - 1]),
    decreases end,
{
    if from < end && is_blank(s[end - 1]) {
        lemma_blanks_start(s, from, end - 1);
    }
}

fn blank(c: char) -> (out: bool)
    ensures
        out == is_blank(c),
{
    c == ' ' || c == '\t' || c == '\n' || c == '\r' || c == '\x0C'
}

/// A copy of `s` without the whitespace at its start and at its end.
pub fn trimmed(s: &str) -> (out: String)
    ensures
        out@ == trim(s@),
{
    let chars = chars_of(s);
    let mut from: usize = 0;
    while from < chars.len() && blank(chars[from])
        invariant
            from <= chars.len(),
            blanks_end(chars@, from as int) == blanks_end(chars@, 0),
        decreases chars.len() - from,
    {
        from += 1;
    }
    let mut to: usize = chars.len();
    while from < to && blank(chars[to - 1])
        invariant
            from <= to <= chars.len(),
            blanks_start(chars@, from as int, to as int) == blanks_start(
                chars@,
                from as int,
                chars@.len() as int,
            ),
        decreases to,
    {
        to -= 1;
    }
    string_of(chars.as_slice(), from, to)
}

} // verus!
