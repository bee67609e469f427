//! Character-level helpers shared by the lexer and the sprite loaders.
use vstd::prelude::*;
use vstd::string::*;

verus! {

/// Unicode `White_Space` property, the set that `char::is_whitespace` tests.
pub open spec fn is_ws(c: char) -> bool {
    ||| ('\t' <= c && c <= '\r')
    ||| c == ' '
    ||| c == '\u{85}'
    ||| c == '\u{A0}'
    ||| c == '\u{1680}'
    ||| ('\u{2000}' <= c && c <= '\u{200A}')
    ||| c == '\u{2028}'
    ||| c == '\u{2029}'
    ||| c == '\u{202F}'
    ||| c == '\u{205F}'
    ||| c == '\u{3000}'
}

/// Whether `c` is white space in the Unicode sense.
pub fn is_whitespace(c: char) -> (r: bool)
    ensures
        r == is_ws(c),
{
    ('\t' <= c && c <= '\r') || c == ' ' || c == '\u{85}' || c == '\u{A0}' || c == '\u{1680}'
        || ('\u{2000}' <= c && c <= '\u{200A}') || c == '\u{2028}' || c == '\u{2029}'
        || c == '\u{202F}' || c == '\u{205F}' || c == '\u{3000}'
}

/// The characters of `s`, in order.
pub fn chars_of(s: &str) -> (v: Vec<char>)
    ensures
        v@ == s@,
{
    let mut v: Vec<char> = Vec::new();
    for c in it: s.chars()
        invariant
            v@ == it.seq().take(it.index() as int),
    {
        v.push(c);
    }
    v
}

/// The longest prefix of `s` holding no white space.
pub open spec fn take_word(s: Seq<char>) -> Seq<char>
    decreases s.len(),
{
    if s.len() == 0 || is_ws(s[0]) {
        Seq::empty()
    } else {
        seq![s[0]] + take_word(s.drop_first())
    }
}

/// The white-space separated words of `s`, as `str::split_whitespace` yields them.
pub open spec fn words(s: Seq<char>) -> Seq<Seq<char>>
    decreases s.len(),
{
    if s.len() == 0 {
        Seq::empty()
    } else if is_ws(s[0]) {
        words(s.drop_first())
    } else {
        let w = take_word(s);
        proof {
            lemma_take_word_len(s);
        }
        seq![w] + words(s.skip(w.len() as int))
    }
}

/// A word is a prefix of its text, holds no white space, and is non-empty
/// when the text starts with a non-space.
pub proof fn lemma_take_word_len(s: Seq<char>)
    ensures
        take_word(s).len() <= s.len(),
        take_word(s) == s.take(take_word(s).len() as int),
        forall|k: int| 0 <= k < take_word(s).len() ==> !is_ws(#[trigger] take_word(s)[k]),
        take_word(s).len() < s.len() ==> is_ws(s[take_word(s).len() as int]),
        s.len() > 0 && !is_ws(s[0]) ==> take_word(s).len() > 0,
    decreases s.len(),
{
    if s.len() > 0 && !is_ws(s[0]) {
        lemma_take_word_len(s.drop_first());
        let w = take_word(s.drop_first());
        assert forall|k: int| 0 <= k < take_word(s).len() implies !is_ws(#[trigger] take_word(s)[k]) by {
            if k > 0 {
                assert(take_word(s)[k] == w[k - 1]);
            }
        }
        assert(take_word(s) =~= s.take(take_word(s).len() as int));
    }
}

/// The prefix of `s` before its first line feed.
pub open spec fn take_line(s: Seq<char>) -> Seq<char>
    decreases s.len(),
{
    if s.len() == 0 || s[0] == '\n' {
        Seq::empty()
    } else {
        seq![s[0]] + take_line(s.drop_first())
    }
}

/// A line without the carriage return that ends it, if it has one.
pub open spec fn strip_cr(l: Seq<char>) -> Seq<char> {
    if l.len() > 0 && l.last() == '\r' {
        l.drop_last()
    } else {
        l
    }
}

/// The lines of `s`, as `str::lines` yields them: split after each line feed,
/// without the line feed and one carriage return before it; the last line
/// may lack its line feed, and no empty line follows a final line feed.
pub open spec fn lines(s: Seq<char>) -> Seq<Seq<char>>
    decreases s.len(),
{
    if s.len() == 0 {
        Seq::empty()
    } else {
        let l = take_line(s);
        proof {
            lemma_take_line_len(s);
        }
        if l.len() < s.len() {
            seq![strip_cr(l)] + lines(s.skip(l.len() as int + 1))
        } else {
            seq![l]
        }
    }
}

/// A line is a prefix of its text, holds no line feed, and is followed by one
/// unless it takes the whole text.
pub proof fn lemma_take_line_len(s: Seq<char>)
    ensures
        take_line(s).len() <= s.len(),
        take_line(s) == s.take(take_line(s).len() as int),
        take_line(s).len() < s.len() ==> s[take_line(s).len() as int] == '\n',
        forall|k: int| 0 <= k < take_line(s).len() ==> #[trigger] s[k] != '\n',
    decreases s.len(),
{
    if s.len() > 0 && s[0] != '\n' {
        lemma_take_line_len(s.drop_first());
        assert(take_line(s) =~= s.take(take_line(s).len() as int));
        assert forall|k: int| 0 <= k < take_line(s).len() implies #[trigger] s[k] != '\n' by {
            if k > 0 {
                assert(s[k] == s.drop_first()[k - 1]);
            }
        }
    }
}

/// The character values of a sequence of strings.
pub open spec fn strings_view(v: Seq<String>) -> Seq<Seq<char>> {
    v.map_values(|l: String| l@)
}

/// The lines of `text` (see [`lines`]).
pub fn lines_of(text: &str) -> (r: Vec<String>)
    ensures
        strings_view(r@) == lines(text@),
{
    let cs = chars_of(text);
    let n = cs.len();
    let mut r: Vec<String> = Vec::new();
    let mut i: usize = 0;
    assert(cs@.skip(0) =~= cs@);
    assert(strings_view(r@) =~= Seq::<Seq<char>>::empty());
    while i < n
        invariant
            n == cs.len(),
            cs@ == text@,
            i <= n,
            strings_view(r@) + lines(cs@.skip(i as int)) == lines(text@),
        decreases n - i,
    {
        let ghost rest = cs@.skip(i as int);
        let start = i;
        proof {
            lemma_take_line_len(rest);
        }
        while i < n && cs[i] != '\n'
            invariant
                n == cs.len(),
                start <= i <= n,
                take_line(rest) == cs@.subrange(start as int, i as int) + take_line(cs@.skip(i as int)),
            decreases n - i,
        {
            assert(cs@.skip(i as int).drop_first() =~= cs@.skip(i + 1));
            assert(cs@.subrange(start as int, i + 1) =~= cs@.subrange(start as int, i as int) + seq![cs@[i as int]]);
            i = i + 1;
        }
        assert(take_line(cs@.skip(i as int)) =~= Seq::<char>::empty());
        assert(take_line(rest) =~= cs@.subrange(start as int, i as int));
        let ghost l = take_line(rest);
        let ghost old_r = strings_view(r@);
        if i < n {
            let end = if i > start && cs[i - 1] == '\r' {
                i - 1
            } else {
                i
            };
            assert(strip_cr(l) =~= cs@.subrange(start as int, end as int));
            r.push(String::from_str(text.substring_char(start, end)));
            assert(rest.skip(l.len() as int + 1) =~= cs@.skip(i + 1));
            i = i + 1;
            assert(strings_view(r@) =~= old_r.push(strip_cr(l)));
            assert(lines(rest) == seq![strip_cr(l)] + lines(cs@.skip(i as int)));
            assert(old_r + lines(rest) =~= strings_view(r@) + lines(cs@.skip(i as int)));
        } else {
            r.push(String::from_str(text.substring_char(start, i)));
            assert(l =~= rest);
            assert(strings_view(r@) =~= old_r.push(l));
            assert(lines(cs@.skip(i as int)) =~= Seq::<Seq<char>>::empty());
            assert(old_r + lines(rest) =~= strings_view(r@) + lines(cs@.skip(i as int)));
        }
    }
    assert(lines(cs@.skip(n as int)) =~= Seq::<Seq<char>>::empty());
    r
}

} // verus!
