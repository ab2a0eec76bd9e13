//! Character-level text operations: whitespace, trimming, splitting and
//! joining, each stated over `Seq<char>`.

use vstd::prelude::*;

verus! {

/// Whether `c` has the Unicode `White_Space` property, as `char::is_whitespace`
/// reports it.
pub uninterp spec fn whitespace(c: char) -> bool;

/// `char::is_whitespace` is a function of the character alone; its result is
/// named [`whitespace`]. Nothing is claimed about which characters count.
pub assume_specification[ char::is_whitespace ](c: char) -> (b: bool)
    ensures
        b == whitespace(c),
;

/// `String::push` appends one character to the end of the string.
pub assume_specification[ String::push ](s: &mut String, c: char)
    ensures
        final(s)@ == old(s)@.push(c),
;

/// `s` without its leading whitespace.
pub open spec fn trimmed_start(s: Seq<char>) -> Seq<char>
    decreases s.len(),
{
    if s.len() > 0 && whitespace(s[0]) {
        trimmed_start(s.drop_first())
    } else {
        s
    }
}

/// `s` without its trailing whitespace.
pub open spec fn trimmed_end(s: Seq<char>) -> Seq<char>
    decreases s.len(),
{
    if s.len() > 0 && whitespace(s.last()) {
        trimmed_end(s.drop_last())
    } else {
        s
    }
}

/// `s` without leading and trailing whitespace.
pub open spec fn trimmed(s: Seq<char>) -> Seq<char> {
    trimmed_end(trimmed_start(s))
}

/// The pieces of `s` between occurrences of `sep`. There is always at least
/// one piece: the empty text has the single piece `""`, a separator closes the
/// current piece and opens an empty one, any other character extends the
/// current piece.
pub open spec fn pieces(s: Seq<char>, sep: char) -> Seq<Seq<char>>
    decreases s.len(),
{
    if s.len() == 0 {
        seq![Seq::<char>::empty()]
    } else {
        let before = pieces(s.drop_last(), sep);
        if s.last() == sep {
            before.push(Seq::<char>::empty())
        } else {
            before.drop_last().push(before.last().push(s.last()))
        }
    }
}

/// The parts of `parts` in order, with `sep` between each two neighbours.
pub open spec fn joined(parts: Seq<Seq<char>>, sep: Seq<char>) -> Seq<char>
    decreases parts.len(),
{
    if parts.len() == 0 {
        Seq::<char>::empty()
    } else if parts.len() == 1 {
        parts[0]
    } else {
        joined(parts.drop_last(), sep) + sep + parts.last()
    }
}

/// Every piece list has a last piece.
pub proof fn lemma_pieces_nonempty(s: Seq<char>, sep: char)
    ensures
        pieces(s, sep).len() >= 1,
    decreases s.len(),
{
    if s.len() > 0 {
        lemma_pieces_nonempty(s.drop_last(), sep);
    }
}

/// Trimming leaves no whitespace at either end, and a text without whitespace
/// at its ends is its own trimmed form.
pub proof fn lemma_trimmed_ends(s: Seq<char>)
    ensures
        trimmed(s).len() > 0 ==> !whitespace(trimmed(s)[0]) && !whitespace(trimmed(s).last()),
        (s.len() == 0 || (!whitespace(s[0]) && !whitespace(s.last()))) ==> trimmed(s) == s,
{
    lemma_trimmed_start_shape(s);
    lemma_trimmed_end_shape(trimmed_start(s));
    let t = trimmed_start(s);
    let u = trimmed_end(t);
    if u.len() > 0 {
        assert(u[0] == t[0]);
    }
}

/// `trimmed_start(s)` is the suffix of `s` that begins at its first
/// non-whitespace character.
pub proof fn lemma_trimmed_start_shape(s: Seq<char>)
    ensures
        trimmed_start(s).len() <= s.len(),
        trimmed_start(s) == s.skip(s.len() - trimmed_start(s).len()),
        forall|i: int| 0 <= i < s.len() - trimmed_start(s).len() ==> whitespace(#[trigger] s[i]),
        trimmed_start(s).len() > 0 ==> !whitespace(trimmed_start(s)[0]),
    decreases s.len(),
{
    if s.len() > 0 && whitespace(s[0]) {
        let r = s.drop_first();
        lemma_trimmed_start_shape(r);
        let k = r.len() - trimmed_start(r).len();
        assert(r.skip(k) == s.skip(k + 1));
        assert forall|i: int| 0 <= i < s.len() - trimmed_start(s).len() implies whitespace(
            #[trigger] s[i],
        ) by {
            if i > 0 {
                assert(s[i] == r[i - 1]);
            }
        }
    } else {
        assert(s.skip(0) == s);
    }
}

/// `trimmed_end(s)` is the prefix of `s` that ends at its last non-whitespace
/// character.
pub proof fn lemma_trimmed_end_shape(s: Seq<char>)
    ensures
        trimmed_end(s).len() <= s.len(),
        trimmed_end(s) == s.take(trimmed_end(s).len() as int),
        forall|i: int| trimmed_end(s).len() <= i < s.len() ==> whitespace(#[trigger] s[i]),
        trimmed_end(s).len() > 0 ==> !whitespace(trimmed_end(s).last()),
    decreases s.len(),
{
    if s.len() > 0 && whitespace(s.last()) {
        let r = s.drop_last();
        lemma_trimmed_end_shape(r);
        let k = trimmed_end(r).len() as int;
        assert(r.take(k) == s.take(k));
        assert forall|i: int| trimmed_end(s).len() <= i < s.len() implies whitespace(
            #[trigger] s[i],
        ) by {
            if i < r.len() {
                assert(s[i] == r[i]);
            }
        }
    } else {
        assert(s.take(s.len() as int) == s);
    }
}

/// The characters of `s`, in order.
pub fn to_chars(s: &str) -> (chars: Vec<char>)
    ensures
        chars@ == s@,
{
    broadcast use vstd::string::group_string_axioms;

    let mut chars: Vec<char> = Vec::new();
    for c in it: s.chars()
        invariant
            it.seq() == s@,
            chars@ == s@.take(it.index()),
    {
        chars.push(c);
    }
    chars
}

/// The text made of `chars[from..to]`.
pub(crate) fn from_chars(chars: &Vec<char>, from: usize, to: usize) -> (s: String)
    requires
        from <= to <= chars.len(),
    ensures
        s@ == chars@.subrange(from as int, to as int),
{
    let mut s = String::new();
    let mut i: usize = from;
    while i < to
        invariant
            from <= i <= to <= chars.len(),
            s@ == chars@.subrange(from as int, i as int),
        decreases to - i,
    {
        s.push(chars[i]);
        i += 1;
    }
    s
}

/// The first index in `from..to` whose character is not whitespace, or `to`.
pub(crate) fn skip_whitespace(chars: &Vec<char>, from: usize, to: usize) -> (at: usize)
    requires
        from <= to <= chars.len(),
    ensures
        from <= at <= to,
        chars@.subrange(at as int, to as int) == trimmed_start(
            chars@.subrange(from as int, to as int),
        ),
{
    let mut i: usize = from;
    while i < to && chars[i].is_whitespace()
        invariant
            from <= i <= to <= chars.len(),
            trimmed_start(chars@.subrange(from as int, to as int)) == trimmed_start(
                chars@.subrange(i as int, to as int),
            ),
        decreases to - i,
    {
        assert(chars@.subrange(i as int, to as int).drop_first() == chars@.subrange(
            i + 1,
            to as int,
        ));
        i += 1;
    }
    i
}

/// The end of the range `from..to` once the whitespace at its end is cut off.
pub(crate) fn skip_whitespace_back(chars: &Vec<char>, from: usize, to: usize) -> (at: usize)
    requires
        from <= to <= chars.len(),
    ensures
        from <= at <= to,
        chars@.subrange(from as int, at as int) == trimmed_end(
            chars@.subrange(from as int, to as int),
        ),
{
    let mut j: usize = to;
    while j > from && chars[j - 1].is_whitespace()
        invariant
            from <= j <= to <= chars.len(),
            trimmed_end(chars@.subrange(from as int, to as int)) == trimmed_end(
                chars@.subrange(from as int, j as int),
            ),
        decreases j,
    {
        assert(chars@.subrange(from as int, j as int).drop_last() == chars@.subrange(
            from as int,
            j - 1,
        ));
        j -= 1;
    }
    j
}

/// `chars[from..to]` without leading and trailing whitespace.
pub(crate) fn trim_range(chars: &Vec<char>, from: usize, to: usize) -> (s: String)
    requires
        from <= to <= chars.len(),
    ensures
        s@ == trimmed(chars@.subrange(from as int, to as int)),
{
    let a = skip_whitespace(chars, from, to);
    let b = skip_whitespace_back(chars, a, to);
    from_chars(chars, a, b)
}

/// `s` without leading and trailing whitespace.
pub fn trim(s: &str) -> (t: String)
    ensures
        t@ == trimmed(s@),
{
    let chars = to_chars(s);
    assert(chars@.subrange(0, chars@.len() as int) == chars@);
    trim_range(&chars, 0, chars.len())
}

/// `s` without leading whitespace.
pub fn trim_start(s: &str) -> (t: String)
    ensures
        t@ == trimmed_start(s@),
{
    let chars = to_chars(s);
    assert(chars@.subrange(0, chars@.len() as int) == chars@);
    let a = skip_whitespace(&chars, 0, chars.len());
    from_chars(&chars, a, chars.len())
}

/// `s` without trailing whitespace.
pub fn trim_end(s: &str) -> (t: String)
    ensures
        t@ == trimmed_end(s@),
{
    let chars = to_chars(s);
    assert(chars@.subrange(0, chars@.len() as int) == chars@);
    let b = skip_whitespace_back(&chars, 0, chars.len());
    from_chars(&chars, 0, b)
}

/// The parts of `parts` in order, with `sep` between each two neighbours.
pub fn join(parts: &Vec<String>, sep: &str) -> (s: String)
    ensures
        s@ == joined(parts.deep_view(), sep@),
{
    let mut s = String::new();
    let mut i: usize = 0;
    while i < parts.len()
        invariant
            i <= parts.len(),
            s@ == joined(parts.deep_view().take(i as int), sep@),
        decreases parts.len() - i,
    {
        let ghost done = parts.deep_view().take(i as int);
        let ghost next = parts.deep_view().take(i + 1);
        assert(next.drop_last() == done);
        assert(next.last() == parts[i as int]@);
        if i > 0 {
            s.append(sep);
        }
        s.append(parts[i].as_str());
        assert(s@ == joined(next, sep@)) by {
            if i == 0 {
                assert(done.len() == 0);
                assert(s@ == Seq::<char>::empty() + parts[i as int]@);
            }
        }
        i += 1;
    }
    assert(parts.deep_view().take(parts.len() as int) == parts.deep_view());
    s
}

/// The digits of `n` in base ten, without leading zeros.
pub open spec fn decimal(n: nat) -> Seq<char>
    decreases n,
{
    let digit = ((n % 10) + 48) as u8 as char;
    if n < 10 {
        seq![digit]
    } else {
        decimal(n / 10).push(digit)
    }
}

/// Appends the digits of `n` in base ten to `s`.
pub fn push_decimal(s: &mut String, n: u64)
    ensures
        final(s)@ == old(s)@ + decimal(n as nat),
    decreases n,
{
    if n >= 10 {
        push_decimal(s, n / 10);
    }
    let digit: u8 = (n % 10) as u8 + 48;
    s.push(digit as char);
    assert(final(s)@ =~= old(s)@ + decimal(n as nat));
}

/// The pieces of `s` between occurrences of `sep`.
pub fn split(s: &str, sep: char) -> (parts: Vec<String>)
    ensures
        parts.deep_view() == pieces(s@, sep),
{
    let chars = to_chars(s);
    let n = chars.len();
    let mut parts: Vec<String> = Vec::new();
    let mut start: usize = 0;
    let mut k: usize = 0;
    assert(chars@.subrange(0, 0) == Seq::<char>::empty());
    assert(pieces(chars@.subrange(0, 0), sep) == parts.deep_view().push(chars@.subrange(0, 0)));
    while k < n
        invariant
            start <= k <= n == chars.len(),
            pieces(chars@.subrange(0, k as int), sep) == parts.deep_view().push(
                chars@.subrange(start as int, k as int),
            ),
        decreases n - k,
    {
        let ghost before = chars@.subrange(0, k as int);
        let ghost now = chars@.subrange(0, k + 1);
        let ghost done = parts.deep_view();
        assert(now.drop_last() == before);
        assert(now.last() == chars@[k as int]);
        if chars[k] == sep {
            let piece = from_chars(&chars, start, k);
            parts.push(piece);
            assert(parts.deep_view() == done.push(chars@.subrange(start as int, k as int)));
            assert(chars@.subrange(k + 1, k + 1) == Seq::<char>::empty());
            start = k + 1;
        } else {
            assert(chars@.subrange(start as int, k as int).push(chars@[k as int])
                == chars@.subrange(start as int, k + 1));
            assert(done.push(chars@.subrange(start as int, k as int)).drop_last() == done);
        }
        k += 1;
    }
    let ghost done = parts.deep_view();
    let piece = from_chars(&chars, start, n);
    parts.push(piece);
    assert(parts.deep_view() == done.push(chars@.subrange(start as int, n as int)));
    assert(chars@.subrange(0, n as int) == chars@);
    parts
}

/// Joining without a separator is concatenation: the join of the whole is
/// the join of any prefix followed by the join of what is left.
pub proof fn lemma_joined_split(parts: Seq<Seq<char>>, at: int)
    requires
        0 <= at <= parts.len(),
    ensures
        joined(parts, Seq::empty()) == joined(parts.take(at), Seq::empty()) + joined(
            parts.skip(at),
            Seq::empty(),
        ),
    decreases parts.len(),
{
    let e = Seq::<char>::empty();
    if at == parts.len() {
        assert(parts.take(at) == parts);
        assert(parts.skip(at) == Seq::<Seq<char>>::empty());
        assert(joined(parts, e) == joined(parts, e) + e);
    } else {
        let front = parts.drop_last();
        lemma_joined_split(front, at);
        assert(front.take(at) == parts.take(at));
        assert(parts.skip(at).drop_last() == front.skip(at));
        assert(parts.skip(at).last() == parts.last());
        lemma_joined_push(front, parts.last());
        assert(front.push(parts.last()) == parts);
        lemma_joined_push(front.skip(at), parts.last());
        assert(front.skip(at).push(parts.last()) == parts.skip(at));
        assert(joined(parts, e) == joined(front, e) + parts.last());
        assert(joined(parts.skip(at), e) == joined(front.skip(at), e) + parts.last());
        assert(joined(parts, e) == joined(parts.take(at), e) + joined(parts.skip(at), e));
    }
}

/// Joining without a separator: one more part is appended to the join.
pub proof fn lemma_joined_push(parts: Seq<Seq<char>>, last: Seq<char>)
    ensures
        joined(parts.push(last), Seq::empty()) == joined(parts, Seq::empty()) + last,
{
    let e = Seq::<char>::empty();
    let all = parts.push(last);
    assert(all.drop_last() == parts);
    assert(all.last() == last);
    if parts.len() == 0 {
        assert(joined(all, e) == last);
        assert(e + last == last);
    } else {
        assert(joined(all, e) == joined(parts, e) + e + last);
        assert(joined(parts, e) + e == joined(parts, e));
    }
}

/// A join is at least as long as its first part.
pub proof fn lemma_joined_len(parts: Seq<Seq<char>>)
    requires
        parts.len() > 0,
    ensures
        joined(parts, Seq::empty()).len() >= parts[0].len(),
    decreases parts.len(),
{
    if parts.len() > 1 {
        lemma_joined_len(parts.drop_last());
    }
}

} // verus!
