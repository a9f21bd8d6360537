//! Text primitives: canonical handles and comma-separated lists.
//!
//! Every function here is specified over the character sequence of its
//! argument (`s@`), never over bytes.

use vstd::prelude::*;

verus! {

/// Whether `c` is white space: one of the code points with the Unicode
/// property `White_Space`.
pub open spec fn is_whitespace(c: char) -> bool {
    let n = c as u32;
    ||| 0x09 <= n <= 0x0d
    ||| n == 0x20
    ||| n == 0x85
    ||| n == 0xa0
    ||| n == 0x1680
    ||| 0x2000 <= n <= 0x200a
    ||| n == 0x2028
    ||| n == 0x2029
    ||| n == 0x202f
    ||| n == 0x205f
    ||| n == 0x3000
}

/// `String::push`: appends one character at the end of the string.
pub assume_specification[ String::push ](s: &mut String, c: char)
    ensures
        final(s)@ == old(s)@.push(c),
;

/// The character sequences of a sequence of strings.
pub open spec fn views(v: Seq<String>) -> Seq<Seq<char>> {
    Seq::new(v.len(), |i: int| v[i]@)
}

/// ASCII lower case of one character: `A`..`Z` move to `a`..`z`, all else stays.
pub open spec fn lower_char(c: char) -> char {
    if 'A' <= c && c <= 'Z' {
        ((c as u8) + 32) as char
    } else {
        c
    }
}

/// ASCII lower case of a text, character by character.
pub open spec fn lowered(s: Seq<char>) -> Seq<char> {
    Seq::new(s.len(), |i: int| lower_char(s[i]))
}

/// `s` without its leading white space.
pub open spec fn skip_space(s: Seq<char>) -> Seq<char>
    decreases s.len(),
{
    if s.len() > 0 && is_whitespace(s.first()) {
        skip_space(s.drop_first())
    } else {
        s
    }
}

/// `s` without its trailing white space.
pub open spec fn drop_trailing_space(s: Seq<char>) -> Seq<char>
    decreases s.len(),
{
    if s.len() > 0 && is_whitespace(s.last()) {
        drop_trailing_space(s.drop_last())
    } else {
        s
    }
}

/// `s` without leading and trailing white space.
pub open spec fn trimmed(s: Seq<char>) -> Seq<char> {
    drop_trailing_space(skip_space(s))
}

/// The canonical form of a handle: trimmed, then ASCII lower case.
pub open spec fn canonical(s: Seq<char>) -> Seq<char> {
    lowered(trimmed(s))
}

/// What trimming does: the result is a stretch of the text that neither
/// begins nor ends with white space, and all that stands before and after
/// it in the text is white space.
pub proof fn lemma_trimmed(s: Seq<char>)
    ensures
        exists|a: int, b: int| #[trigger] trimmed_at(s, a, b),
{
    lemma_skip_space(s);
    let a = choose|a: int| #[trigger] skipped_at(s, a);
    let rest = s.skip(a);
    lemma_drop_trailing_space(rest);
    let n = choose|n: int| #[trigger] dropped_at(rest, n);
    let b = a + n;
    assert(rest.take(n) =~= s.subrange(a, b));
    assert forall|i: int| b <= i < s.len() implies is_whitespace(s[i]) by {
        assert(rest[i - a] == s[i]);
    }
    if a < b {
        assert(rest[0] == s[a]);
        assert(rest[n - 1] == s[b - 1]);
    }
    assert(trimmed_at(s, a, b));
}

/// Whether `s[a..b]` is `s` trimmed: white space before and after, none at
/// either end of the stretch.
pub open spec fn trimmed_at(s: Seq<char>, a: int, b: int) -> bool {
    &&& 0 <= a <= b <= s.len()
    &&& trimmed(s) == s.subrange(a, b)
    &&& forall|i: int| 0 <= i < a ==> is_whitespace(s[i])
    &&& forall|i: int| b <= i < s.len() ==> is_whitespace(s[i])
    &&& a < b ==> !is_whitespace(s[a]) && !is_whitespace(s[b - 1])
}

/// Whether the first `a` characters of `s` are its leading white space.
pub open spec fn skipped_at(s: Seq<char>, a: int) -> bool {
    &&& 0 <= a <= s.len()
    &&& skip_space(s) == s.skip(a)
    &&& forall|i: int| 0 <= i < a ==> is_whitespace(s[i])
    &&& a < s.len() ==> !is_whitespace(s[a])
}

/// Whether all but the first `n` characters of `s` are its trailing white space.
pub open spec fn dropped_at(s: Seq<char>, n: int) -> bool {
    &&& 0 <= n <= s.len()
    &&& drop_trailing_space(s) == s.take(n)
    &&& forall|i: int| n <= i < s.len() ==> is_whitespace(s[i])
    &&& 0 < n ==> !is_whitespace(s[n - 1])
}

/// Skipping leading white space cuts off white space only, up to the first
/// character that is none.
pub proof fn lemma_skip_space(s: Seq<char>)
    ensures
        exists|a: int| #[trigger] skipped_at(s, a),
    decreases s.len(),
{
    if s.len() > 0 && is_whitespace(s.first()) {
        let rest = s.drop_first();
        lemma_skip_space(rest);
        let a = choose|a: int| #[trigger] skipped_at(rest, a);
        assert(rest.skip(a) =~= s.skip(a + 1));
        assert forall|i: int| 0 <= i < a + 1 implies is_whitespace(s[i]) by {
            if i > 0 {
                assert(rest[i - 1] == s[i]);
            }
        }
        if a + 1 < s.len() {
            assert(rest[a] == s[a + 1]);
        }
        assert(skipped_at(s, a + 1));
    } else {
        assert(s.skip(0) =~= s);
        assert(skipped_at(s, 0));
    }
}

/// Dropping trailing white space cuts off white space only, back to the
/// last character that is none.
pub proof fn lemma_drop_trailing_space(s: Seq<char>)
    ensures
        exists|n: int| #[trigger] dropped_at(s, n),
    decreases s.len(),
{
    if s.len() > 0 && is_whitespace(s.last()) {
        let rest = s.drop_last();
        lemma_drop_trailing_space(rest);
        let n = choose|n: int| #[trigger] dropped_at(rest, n);
        assert(rest.take(n) =~= s.take(n));
        assert forall|i: int| n <= i < s.len() implies is_whitespace(s[i]) by {
            if i < s.len() - 1 {
                assert(rest[i] == s[i]);
            }
        }
        if 0 < n {
            assert(rest[n - 1] == s[n - 1]);
        }
        assert(dropped_at(s, n));
    } else {
        assert(s.take(s.len() as int) =~= s);
        assert(dropped_at(s, s.len() as int));
    }
}

/// The pieces of `s` between occurrences of `sep`. There is always at least
/// one piece; an empty text has one empty piece, and a separator at either
/// end leaves an empty piece there.
pub open spec fn split_on(s: Seq<char>, sep: char) -> Seq<Seq<char>>
    decreases s.len(),
{
    if s.len() == 0 {
        seq![Seq::empty()]
    } else {
        let head = split_on(s.drop_last(), sep);
        if s.last() == sep {
            head.push(Seq::empty())
        } else {
            head.drop_last().push(head.last().push(s.last()))
        }
    }
}

/// The pieces of `pieces` glued together with `sep` between neighbours.
pub open spec fn joined(pieces: Seq<Seq<char>>, sep: char) -> Seq<char>
    decreases pieces.len(),
{
    if pieces.len() == 0 {
        Seq::empty()
    } else if pieces.len() == 1 {
        pieces[0]
    } else {
        joined(pieces.drop_last(), sep).push(sep) + pieces.last()
    }
}

/// Splitting loses nothing: the pieces are never none, hold no separator,
/// and joined again give the text back.
pub proof fn lemma_split_on_joins(s: Seq<char>, sep: char)
    ensures
        split_on(s, sep).len() >= 1,
        forall|i: int| 0 <= i < split_on(s, sep).len() ==> !(#[trigger] split_on(s, sep)[i]).contains(sep),
        joined(split_on(s, sep), sep) == s,
    decreases s.len(),
{
    if s.len() == 0 {
        assert(joined(split_on(s, sep), sep) =~= s);
    } else {
        let init = s.drop_last();
        lemma_split_on_joins(init, sep);
        let head = split_on(init, sep);
        let all = split_on(s, sep);
        if s.last() == sep {
            assert(all.drop_last() =~= head);
            assert(joined(all, sep) =~= s);
        } else {
            let grown = head.last().push(s.last());
            assert(!grown.contains(sep)) by {
                if grown.contains(sep) {
                    let k = choose|k: int| 0 <= k < grown.len() && grown[k] == sep;
                    assert(head.last()[k] == sep);
                    assert(head.last().contains(sep));
                }
            }
            assert forall|i: int| 0 <= i < all.len() implies !(#[trigger] all[i]).contains(sep) by {
                if i < all.len() - 1 {
                    assert(all[i] == head[i]);
                }
            }
            if head.len() == 1 {
                assert(joined(head, sep) == head[0]);
                assert(all.len() == 1 && all[0] == grown);
                assert(grown =~= s);
            } else {
                assert(all.drop_last() =~= head.drop_last());
                let front = joined(head.drop_last(), sep).push(sep);
                assert(joined(head, sep) == front + head.last());
                assert(all.len() >= 2 && all.last() == grown);
                assert(joined(all, sep) == front + grown);
                assert(front + grown =~= (front + head.last()).push(s.last()));
                assert(init.push(s.last()) =~= s);
            }
        }
    }
}

/// Whether `c` is white space.
pub fn is_space(c: char) -> (r: bool)
    ensures
        r == is_whitespace(c),
{
    let n: u32 = c as u32;
    (0x09 <= n && n <= 0x0d) || n == 0x20 || n == 0x85 || n == 0xa0 || n == 0x1680 || (0x2000 <= n
        && n <= 0x200a) || n == 0x2028 || n == 0x2029 || n == 0x202f || n == 0x205f || n == 0x3000
}

/// The characters of a text, in order.
pub fn chars_of(s: &str) -> (v: Vec<char>)
    ensures
        v@ == s@,
{
    let mut v: Vec<char> = Vec::new();
    for c in it: s.chars()
        invariant
            v@ == it.seq().take(it.index()),
    {
        v.push(c);
    }
    v
}

/// ASCII lower case of one character.
pub fn to_lower(c: char) -> (r: char)
    ensures
        r == lower_char(c),
{
    if 'A' <= c && c <= 'Z' {
        let b: u8 = c as u8;
        (b + 32) as char
    } else {
        c
    }
}

/// Whether two texts hold the same characters.
pub fn same_text(a: &str, b: &str) -> (r: bool)
    ensures
        r == (a@ == b@),
{
    let x: String = a.to_owned();
    let y: String = b.to_owned();
    x == y
}

/// Whether `c` occurs in `s`.
pub fn has_char(s: &str, c: char) -> (r: bool)
    ensures
        r == s@.contains(c),
{
    let v = chars_of(s);
    let mut i: usize = 0;
    while i < v.len()
        invariant
            i <= v.len(),
            v@ == s@,
            forall|j: int| 0 <= j < i ==> v@[j] != c,
        decreases v.len() - i,
    {
        if v[i] == c {
            assert(s@[i as int] == c);
            return true;
        }
        i = i + 1;
    }
    false
}

/// The bounds of the trimmed part of `v`: `v[a..b]` is `v` without leading
/// and trailing white space.
fn trim_bounds(v: &Vec<char>) -> (r: (usize, usize))
    ensures
        r.0 <= r.1 <= v.len(),
        v@.subrange(r.0 as int, r.1 as int) == trimmed(v@),
{
    let mut a: usize = 0;
    assert(v@.skip(0) =~= v@);
    while a < v.len() && is_space(v[a])
        invariant
            a <= v.len(),
            skip_space(v@) == skip_space(v@.skip(a as int)),
        decreases v.len() - a,
    {
        proof {
            assert(v@.skip(a as int).drop_first() =~= v@.skip(a + 1));
        }
        a = a + 1;
    }
    assert(skip_space(v@) == v@.skip(a as int));
    let mut b: usize = v.len();
    while b > a && is_space(v[b - 1])
        invariant
            a <= b <= v.len(),
            trimmed(v@) == drop_trailing_space(v@.subrange(a as int, b as int)),
        decreases b,
    {
        proof {
            assert(v@.subrange(a as int, b as int).drop_last() =~= v@.subrange(a as int, b - 1));
        }
        b = b - 1;
    }
    (a, b)
}

/// `s` without leading and trailing white space.
pub fn trim_text(s: &str) -> (r: String)
    ensures
        r@ == trimmed(s@),
{
    let v = chars_of(s);
    let (a, b) = trim_bounds(&v);
    let mut out = String::new();
    let mut i: usize = a;
    while i < b
        invariant
            a <= i <= b <= v.len(),
            out@ == v@.subrange(a as int, i as int),
        decreases b - i,
    {
        out.push(v[i]);
        proof {
            assert(out@ =~= v@.subrange(a as int, i + 1));
        }
        i = i + 1;
    }
    out
}

/// The canonical form of a handle: trimmed, then ASCII lower case.
pub fn canonical_handle(s: &str) -> (r: String)
    ensures
        r@ == canonical(s@),
{
    let v = chars_of(s);
    let (a, b) = trim_bounds(&v);
    let mut out = String::new();
    let mut i: usize = a;
    while i < b
        invariant
            a <= i <= b <= v.len(),
            out@ == lowered(v@.subrange(a as int, i as int)),
        decreases b - i,
    {
        out.push(to_lower(v[i]));
        proof {
            assert(out@ =~= lowered(v@.subrange(a as int, i + 1)));
        }
        i = i + 1;
    }
    out
}

/// The pieces of `s` between commas.
pub fn split_commas(s: &str) -> (r: Vec<String>)
    ensures
        views(r@) == split_on(s@, ','),
{
    let v = chars_of(s);
    let mut pieces: Vec<String> = Vec::new();
    let mut cur = String::new();
    let mut i: usize = 0;
    while i < v.len()
        invariant
            i <= v.len(),
            views(pieces@).push(cur@) == split_on(v@.take(i as int), ','),
        decreases v.len() - i,
    {
        let ghost before = views(pieces@).push(cur@);
        proof {
            assert(v@.take(i + 1).drop_last() =~= v@.take(i as int));
        }
        if v[i] == ',' {
            pieces.push(cur);
            cur = String::new();
            proof {
                assert(views(pieces@) =~= before);
            }
        } else {
            cur.push(v[i]);
            proof {
                assert(views(pieces@).push(cur@) =~= before.drop_last().push(
                    before.last().push(v@[i as int]),
                ));
            }
        }
        i = i + 1;
    }
    proof {
        assert(v@.take(i as int) =~= v@);
    }
    let ghost before = views(pieces@).push(cur@);
    pieces.push(cur);
    proof {
        assert(views(pieces@) =~= before);
    }
    pieces
}

} // verus!
