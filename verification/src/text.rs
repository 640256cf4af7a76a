//! Character-level helpers: white space, trimming, splitting, comments,
//! and the conversions between strings and character sequences.

use vstd::prelude::*;

verus! {

/// Whether `c` is one of the characters that Unicode marks as white space.
pub open spec fn is_whitespace(c: char) -> bool {
    let code = c as u32;
    ||| 0x09 <= code <= 0x0D
    ||| code == 0x20
    ||| code == 0x85
    ||| code == 0xA0
    ||| code == 0x1680
    ||| 0x2000 <= code <= 0x200A
    ||| code == 0x2028
    ||| code == 0x2029
    ||| code == 0x202F
    ||| code == 0x205F
    ||| code == 0x3000
}

/// Whether `s` holds nothing but white space.
pub open spec fn is_blank(s: Seq<char>) -> bool {
    forall|i: int| 0 <= i < s.len() ==> is_whitespace(#[trigger] s[i])
}

/// `s` without its white space characters, the others in their order.
pub open spec fn without_whitespace(s: Seq<char>) -> Seq<char> {
    s.filter(|c: char| !is_whitespace(c))
}

/// `s` without the white space at its start.
pub open spec fn trim_start(s: Seq<char>) -> Seq<char>
    decreases s.len(),
{
    if s.len() > 0 && is_whitespace(s.first()) {
        trim_start(s.drop_first())
    } else {
        s
    }
}

/// `s` without the white space at its end.
pub open spec fn trim_end(s: Seq<char>) -> Seq<char>
    decreases s.len(),
{
    if s.len() > 0 && is_whitespace(s.last()) {
        trim_end(s.drop_last())
    } else {
        s
    }
}

/// `s` without the white space at its start and at its end.
pub open spec fn trim(s: Seq<char>) -> Seq<char> {
    trim_end(trim_start(s))
}

/// The index of the first `c` in `s`, or the length of `s` where it holds none.
pub open spec fn first_index(s: Seq<char>, c: char) -> int
    decreases s.len(),
{
    if s.len() == 0 || s.first() == c {
        0
    } else {
        1 + first_index(s.drop_first(), c)
    }
}

/// The pieces of `s` between the occurrences of `sep`: one more piece than
/// there are occurrences, each free of `sep`, empty pieces included.
pub open spec fn split(s: Seq<char>, sep: char) -> Seq<Seq<char>>
    decreases s.len(),
{
    let i = first_index(s, sep);
    if 0 <= i < s.len() {
        seq![s.take(i)] + split(s.skip(i + 1), sep)
    } else {
        seq![s]
    }
}

/// Whether `//` stands in `s` at index `i`.
pub open spec fn comment_at(s: Seq<char>, i: int) -> bool {
    0 <= i && i + 1 < s.len() && s[i] == '/' && s[i + 1] == '/'
}

/// The index at which the first `//` of `s` starts, or the length of `s`
/// where it holds none.
pub open spec fn comment_start(s: Seq<char>) -> int
    decreases s.len(),
{
    if s.len() < 2 {
        s.len() as int
    } else if comment_at(s, 0) {
        0
    } else {
        1 + comment_start(s.drop_first())
    }
}

/// What a source line says: the line up to its comment, without the
/// white space around it. `None` where nothing is left.
pub open spec fn cleaned(line: Seq<char>) -> Option<Seq<char>> {
    let code = trim(line.take(comment_start(line)));
    if code.len() == 0 {
        None
    } else {
        Some(code)
    }
}

/// `first_index` is a position of `s` or its length, no `c` stands before
/// it, and where it is a position, `c` stands there.
pub proof fn lemma_first_index(s: Seq<char>, c: char)
    ensures
        0 <= first_index(s, c) <= s.len(),
        forall|j: int| 0 <= j < first_index(s, c) ==> s[j] != c,
        first_index(s, c) < s.len() ==> s[first_index(s, c)] == c,
        first_index(s, c) < s.len() <==> s.contains(c),
    decreases s.len(),
{
    if s.len() == 0 || s.first() == c {
    } else {
        let t = s.drop_first();
        lemma_first_index(t, c);
        assert forall|j: int| 0 <= j < first_index(s, c) implies s[j] != c by {
            if j > 0 {
                assert(s[j] == t[j - 1]);
            }
        }
        if first_index(s, c) < s.len() {
            assert(s[first_index(s, c)] == t[first_index(t, c)]);
        }
        if s.contains(c) {
            let k = choose|k: int| 0 <= k < s.len() && s[k] == c;
            assert(t[k - 1] == c);
        }
    }
}

/// The first index is the one position that holds `c` with no `c` before it.
pub proof fn lemma_first_index_is(s: Seq<char>, c: char, i: int)
    requires
        0 <= i <= s.len(),
        forall|j: int| 0 <= j < i ==> s[j] != c,
        i < s.len() ==> s[i] == c,
    ensures
        first_index(s, c) == i,
{
    lemma_first_index(s, c);
    let f = first_index(s, c);
    if f < i {
        assert(s[f] == c);
    } else if f > i {
        assert(s[i] == c);
    }
}

/// A sequence splits into one piece exactly where it does not hold the
/// separator, and into two exactly where nothing but its first separator
/// is one: then the pieces are what stands before it and what stands after.
pub proof fn lemma_split(s: Seq<char>, sep: char)
    ensures
        split(s, sep).len() >= 1,
        split(s, sep).len() == 1 <==> !s.contains(sep),
        !s.contains(sep) ==> split(s, sep) == seq![s],
        split(s, sep).len() == 2 <==> s.contains(sep) && !s.skip(
            first_index(s, sep) + 1,
        ).contains(sep),
        split(s, sep).len() == 2 ==> split(s, sep) == seq![
            s.take(first_index(s, sep)),
            s.skip(first_index(s, sep) + 1),
        ],
    decreases s.len(),
{
    lemma_first_index(s, sep);
    let i = first_index(s, sep);
    if i < s.len() {
        let rest = s.skip(i + 1);
        lemma_split(rest, sep);
        assert(split(s, sep) == seq![s.take(i)] + split(rest, sep));
        if split(s, sep).len() == 2 {
            assert(split(s, sep) =~= seq![s.take(i), rest]);
        }
    }
}

/// The first piece of a split is what stands before the first separator.
pub proof fn lemma_split_first(s: Seq<char>, sep: char)
    ensures
        split(s, sep).first() == s.take(first_index(s, sep)),
{
    lemma_first_index(s, sep);
    if first_index(s, sep) >= s.len() {
        assert(s.take(s.len() as int) == s);
    }
}

/// The last piece of a split is what stands after the last separator.
pub proof fn lemma_split_last(s: Seq<char>, sep: char, k: int)
    requires
        0 <= k <= s.len(),
        k > 0 ==> s[k - 1] == sep,
        forall|j: int| k <= j < s.len() ==> s[j] != sep,
    ensures
        split(s, sep).last() == s.skip(k),
    decreases s.len(),
{
    lemma_first_index(s, sep);
    let i = first_index(s, sep);
    if i < s.len() {
        let rest = s.skip(i + 1);
        lemma_split(rest, sep);
        lemma_split_last(rest, sep, k - (i + 1));
        assert(rest.skip(k - (i + 1)) == s.skip(k));
    } else {
        if k > 0 {
            assert(s.contains(s[k - 1]));
        }
        assert(s.skip(0) == s);
    }
}

/// The comment starts at the one index where `//` stands with no `//`
/// starting before it.
pub proof fn lemma_comment_start_is(s: Seq<char>, i: int)
    requires
        0 <= i <= s.len(),
        forall|j: int| 0 <= j < i ==> !comment_at(s, j),
        i < s.len() ==> comment_at(s, i),
    ensures
        comment_start(s) == i,
    decreases s.len(),
{
    if s.len() < 2 {
    } else if comment_at(s, 0) {
    } else {
        let t = s.drop_first();
        assert forall|j: int| 0 <= j < i - 1 implies !comment_at(t, j) by {
            assert(!comment_at(s, j + 1));
            assert(t[j] == s[j + 1]);
            if j + 1 < t.len() {
                assert(t[j + 1] == s[j + 2]);
            }
        }
        if i < s.len() {
            assert(comment_at(s, i));
            assert(t[i - 1] == s[i]);
            assert(t[i] == s[i + 1]);
        }
        lemma_comment_start_is(t, i - 1);
    }
}

/// The comment starts within the line or at its end.
pub proof fn lemma_comment_start_bounds(s: Seq<char>)
    ensures
        0 <= comment_start(s) <= s.len(),
    decreases s.len(),
{
    if s.len() >= 2 && !comment_at(s, 0) {
        lemma_comment_start_bounds(s.drop_first());
    }
}

/// Without white space at its start, a sequence is what is left of it
/// from its first character that is no white space.
pub proof fn lemma_trim_start(s: Seq<char>, n: int)
    requires
        0 <= n <= s.len(),
        forall|j: int| 0 <= j < n ==> is_whitespace(s[j]),
        n < s.len() ==> !is_whitespace(s[n]),
    ensures
        trim_start(s) == s.skip(n),
    decreases n,
{
    if n == 0 {
        assert(s.skip(0) == s);
    } else {
        let t = s.drop_first();
        assert forall|j: int| 0 <= j < n - 1 implies is_whitespace(t[j]) by {
            assert(t[j] == s[j + 1]);
        }
        lemma_trim_start(t, n - 1);
        assert(t.skip(n - 1) == s.skip(n));
    }
}

/// Without white space at its end, a sequence is what stands in it up to
/// its last character that is no white space.
pub proof fn lemma_trim_end(s: Seq<char>, n: int)
    requires
        0 <= n <= s.len(),
        forall|j: int| n <= j < s.len() ==> is_whitespace(s[j]),
        0 < n ==> !is_whitespace(s[n - 1]),
    ensures
        trim_end(s) == s.take(n),
    decreases s.len() - n,
{
    if n == s.len() {
        assert(s.take(n) == s);
    } else {
        let t = s.drop_last();
        lemma_trim_end(t, n);
        assert(t.take(n) == s.take(n));
    }
}

/// What is left of a sequence without the white space at its start is
/// empty exactly where the sequence is blank, and starts with a character
/// that is no white space otherwise.
proof fn lemma_trim_start_blank(s: Seq<char>)
    ensures
        trim_start(s).len() == 0 <==> is_blank(s),
        trim_start(s).len() > 0 ==> !is_whitespace(trim_start(s).first()),
    decreases s.len(),
{
    if s.len() > 0 && is_whitespace(s.first()) {
        let t = s.drop_first();
        lemma_trim_start_blank(t);
        if is_blank(t) {
            assert forall|i: int| 0 <= i < s.len() implies is_whitespace(#[trigger] s[i]) by {
                if i > 0 {
                    assert(s[i] == t[i - 1]);
                }
            }
        }
        if is_blank(s) {
            assert forall|i: int| 0 <= i < t.len() implies is_whitespace(#[trigger] t[i]) by {
                assert(t[i] == s[i + 1]);
            }
        }
    } else if s.len() > 0 {
        assert(!is_whitespace(s[0]));
    }
}

/// A sequence that starts with a character that is no white space still
/// starts with it without the white space at its end, and then ends with
/// a character that is none.
proof fn lemma_trim_end_keeps_first(s: Seq<char>)
    requires
        s.len() > 0,
        !is_whitespace(s.first()),
    ensures
        trim_end(s).len() > 0,
        trim_end(s).first() == s.first(),
        !is_whitespace(trim_end(s).last()),
    decreases s.len(),
{
    if is_whitespace(s.last()) {
        lemma_trim_end_keeps_first(s.drop_last());
    }
}

/// A sequence is blank exactly where nothing is left of it without its
/// white space, and exactly where nothing is left of it once trimmed.
/// What is left of it once trimmed starts and ends with characters that
/// are no white space.
pub proof fn lemma_blank(s: Seq<char>)
    ensures
        without_whitespace(s).len() == 0 <==> is_blank(s),
        trim(s).len() == 0 <==> is_blank(s),
        trim(s).len() > 0 ==> !is_whitespace(trim(s).first()) && !is_whitespace(trim(s).last()),
    decreases s.len(),
{
    lemma_trim_start_blank(s);
    if trim_start(s).len() > 0 {
        lemma_trim_end_keeps_first(trim_start(s));
    }
    if s.len() > 0 {
        let t = s.drop_last();
        lemma_blank(t);
        assert(s == t.push(s.last()));
        t.lemma_filter_push(s.last(), |c: char| !is_whitespace(c));
        if is_blank(t) && is_whitespace(s.last()) {
            assert forall|i: int| 0 <= i < s.len() implies is_whitespace(#[trigger] s[i]) by {
                if i < t.len() {
                    assert(s[i] == t[i]);
                }
            }
        }
        if is_blank(s) {
            assert(is_whitespace(s[s.len() - 1]));
            assert forall|i: int| 0 <= i < t.len() implies is_whitespace(#[trigger] t[i]) by {
                assert(t[i] == s[i]);
            }
        }
    } else {
        assert(without_whitespace(s).len() == 0) by {
            s.lemma_filter_len(|c: char| !is_whitespace(c));
        }
    }
}

/// Tells whether `c` is a white space character.
pub fn is_whitespace_char(c: char) -> (r: bool)
    ensures
        r == is_whitespace(c),
{
    let code: u32 = c as u32;
    (0x09 <= code && code <= 0x0D) || code == 0x20 || code == 0x85 || code == 0xA0
        || code == 0x1680 || (0x2000 <= code && code <= 0x200A) || code == 0x2028
        || code == 0x2029 || code == 0x202F || code == 0x205F || code == 0x3000
}

/// The characters of `s`, in a vector.
pub fn chars_of(s: &str) -> (r: Vec<char>)
    ensures
        r@ == s@,
{
    let mut v: Vec<char> = Vec::new();
    for c in it: s.chars()
        invariant
            it.seq() == s@,
            v@ == s@.take(it.index() as int),
    {
        v.push(c);
    }
    v
}

/// Calls `String::push`, of which the standard library says that it
/// appends the given character to the end of the string: afterwards the
/// string holds the characters that it held, and then `c`.
#[verifier::external_body]
pub(crate) fn push_char(s: &mut String, c: char)
    ensures
        final(s)@ == old(s)@.push(c),
{
    s.push(c)
}

/// The string made of the characters of `chars`.
pub fn string_of(chars: &[char]) -> (r: String)
    ensures
        r@ == chars@,
{
    let mut s = String::new();
    let mut i: usize = 0;
    while i < chars.len()
        invariant
            i <= chars.len(),
            s@ == chars@.take(i as int),
        decreases chars.len() - i,
    {
        push_char(&mut s, chars[i]);
        i += 1;
    }
    s
}

/// Tells whether `s` holds exactly the characters of `word`.
pub fn is_word(s: &[char], word: &str) -> (r: bool)
    ensures
        r == (s@ == word@),
{
    let mut same = true;
    let mut n: usize = 0;
    for c in it: word.chars()
        invariant
            it.seq() == word@,
            same ==> n == it.index() && n <= s.len() && s@.take(n as int) =~= word@.take(
                n as int,
            ),
            !same ==> s@ != word@,
    {
        if same {
            if n < s.len() && s[n] == c {
                n += 1;
            } else {
                same = false;
            }
        }
    }
    if same && n == s.len() {
        assert(s@.take(n as int) == s@);
        assert(word@.take(n as int) == word@);
        true
    } else {
        false
    }
}

/// The index of the first `c` in `s`, or the length of `s` where it holds none.
pub fn find_char(s: &[char], c: char) -> (r: usize)
    ensures
        r == first_index(s@, c),
{
    let mut i: usize = 0;
    while i < s.len() && s[i] != c
        invariant
            i <= s.len(),
            forall|j: int| 0 <= j < i ==> s@[j] != c,
        decreases s.len() - i,
    {
        i += 1;
    }
    proof {
        lemma_first_index_is(s@, c, i as int);
    }
    i
}

/// The index at which the first `//` of `s` starts, or the length of `s`
/// where it holds none.
pub fn find_comment(s: &[char]) -> (r: usize)
    ensures
        r == comment_start(s@),
{
    let mut i: usize = 0;
    while i < s.len() && !(i + 1 < s.len() && s[i] == '/' && s[i + 1] == '/')
        invariant
            i <= s.len(),
            forall|j: int| 0 <= j < i ==> !comment_at(s@, j),
        decreases s.len() - i,
    {
        i += 1;
    }
    proof {
        lemma_comment_start_is(s@, i as int);
    }
    i
}

/// The characters of `s` that are not white space, in their order.
pub fn strip_whitespace(s: &[char]) -> (r: Vec<char>)
    ensures
        r@ == without_whitespace(s@),
{
    let mut v: Vec<char> = Vec::new();
    let mut i: usize = 0;
    while i < s.len()
        invariant
            i <= s.len(),
            v@ == without_whitespace(s@.take(i as int)),
        decreases s.len() - i,
    {
        proof {
            assert(s@.take(i + 1) == s@.take(i as int).push(s@[i as int]));
            s@.take(i as int).lemma_filter_push(s@[i as int], |c: char| !is_whitespace(c));
        }
        if !is_whitespace_char(s[i]) {
            v.push(s[i]);
        }
        i += 1;
    }
    assert(s@.take(s.len() as int) == s@);
    v
}

/// Where `s` starts and where it ends once the white space at its start
/// and at its end is left out: the number of white space characters at
/// its start, and the index after its last character that is none (the
/// two are the same where `s` is blank).
pub fn trim_bounds(s: &[char]) -> (r: (usize, usize))
    ensures
        r.0 <= r.1 <= s@.len(),
        s@.skip(r.0 as int) == trim_start(s@),
        s@.subrange(r.0 as int, r.1 as int) == trim(s@),
{
    let mut start: usize = 0;
    while start < s.len() && is_whitespace_char(s[start])
        invariant
            start <= s.len(),
            forall|j: int| 0 <= j < start ==> is_whitespace(s@[j]),
        decreases s.len() - start,
    {
        start += 1;
    }
    let mut end: usize = s.len();
    while end > start && is_whitespace_char(s[end - 1])
        invariant
            start <= end <= s.len(),
            forall|j: int| end <= j < s.len() ==> is_whitespace(s@[j]),
        decreases end,
    {
        end -= 1;
    }
    proof {
        lemma_trim_start(s@, start as int);
        let t = s@.skip(start as int);
        lemma_trim_end(t, end - start);
        assert(t.take(end - start) == s@.subrange(start as int, end as int));
    }
    (start, end)
}

} // verus!
