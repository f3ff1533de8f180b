//! Text handling: splitting on whitespace, joining with single spaces, and
//! the few character and string functions of std that the rest relies on.

use vstd::prelude::*;
use vstd::std_specs::iter::IteratorSpec;

verus! {

broadcast use vstd::string::group_string_axioms;

/// Whether `c` is whitespace: the Unicode `White_Space` characters, as
/// `char::is_whitespace` classes them.
pub open spec fn is_space(c: char) -> bool {
    let u = c as u32;
    ||| 0x09 <= u <= 0x0D
    ||| u == 0x20
    ||| u == 0x85
    ||| u == 0xA0
    ||| u == 0x1680
    ||| 0x2000 <= u <= 0x200A
    ||| u == 0x2028
    ||| u == 0x2029
    ||| u == 0x202F
    ||| u == 0x205F
    ||| u == 0x3000
}

/// Whether std classes `c` as alphanumeric (Unicode `Alphabetic` or `Numeric`).
pub uninterp spec fn is_alnum(c: char) -> bool;

/// The lower-case form of a string under Unicode's case mapping.
pub uninterp spec fn lower_of(s: Seq<char>) -> Seq<char>;

/// Whether `c` is whitespace.
pub fn char_is_space(c: char) -> (r: bool)
    ensures
        r == is_space(c),
{
    let u = c as u32;
    (0x09 <= u && u <= 0x0D) || u == 0x20 || u == 0x85 || u == 0xA0 || u == 0x1680 || (0x2000
        <= u && u <= 0x200A) || u == 0x2028 || u == 0x2029 || u == 0x202F || u == 0x205F || u
        == 0x3000
}

/// Relies on `char::is_alphanumeric`, which depends on the character alone.
#[verifier::external_body]
pub(crate) fn char_is_alnum(c: char) -> (r: bool)
    ensures
        r == is_alnum(c),
{
    c.is_alphanumeric()
}

/// Relies on `str::to_lowercase`, which depends on the characters alone.
#[verifier::external_body]
pub(crate) fn to_lower(s: &str) -> (r: String)
    ensures
        r@ == lower_of(s@),
{
    s.to_lowercase()
}

/// The characters of a string, in order.
pub(crate) fn chars_of(s: &str) -> (r: Vec<char>)
    ensures
        r@ == s@,
{
    let n = s.unicode_len();
    let mut it = s.chars();
    let mut r: Vec<char> = Vec::new();
    let mut i: usize = 0;
    while i < n
        invariant
            n == s@.len(),
            i <= n,
            r@.len() == i,
            r@ + it.remaining() == s@,
            it.obeys_prophetic_iter_laws(),
        decreases n - i,
    {
        let c = it.next().unwrap();
        r.push(c);
        i = i + 1;
    }
    assert(r@ + it.remaining() == r@);
    r
}

/// Relies on `String::from_iter` over characters: the string of those characters.
#[verifier::external_body]
pub(crate) fn string_from_chars(v: &Vec<char>) -> (r: String)
    ensures
        r@ == v@,
{
    v.iter().collect()
}

/// Reading left to right: the words completed so far and the word under way.
pub open spec fn split_scan(s: Seq<char>) -> (Seq<Seq<char>>, Seq<char>)
    decreases s.len(),
{
    if s.len() == 0 {
        (Seq::empty(), Seq::empty())
    } else {
        let (done, cur) = split_scan(s.drop_last());
        let c = s.last();
        if is_space(c) {
            if cur.len() > 0 {
                (done.push(cur), Seq::empty())
            } else {
                (done, Seq::empty())
            }
        } else {
            (done, cur.push(c))
        }
    }
}

/// The maximal runs of non-whitespace characters of `s`, in order.
pub open spec fn words(s: Seq<char>) -> Seq<Seq<char>> {
    let (done, cur) = split_scan(s);
    if cur.len() > 0 {
        done.push(cur)
    } else {
        done
    }
}

/// The words joined by single spaces.
pub open spec fn joined(ws: Seq<Seq<char>>) -> Seq<char>
    decreases ws.len(),
{
    if ws.len() == 0 {
        Seq::empty()
    } else if ws.len() == 1 {
        ws[0]
    } else {
        joined(ws.drop_last()) + seq![' '] + ws.last()
    }
}

/// The views of a sequence of strings.
pub open spec fn views(v: Seq<String>) -> Seq<Seq<char>> {
    v.map_values(|w: String| w@)
}

/// A word as splitting yields it: not empty, and without whitespace.
pub open spec fn is_token(w: Seq<char>) -> bool {
    w.len() > 0 && forall|k: int| 0 <= k < w.len() ==> !is_space(#[trigger] w[k])
}

/// Every word of the sequence is a token.
pub open spec fn all_tokens(ws: Seq<Seq<char>>) -> bool {
    forall|k: int| 0 <= k < ws.len() ==> is_token(#[trigger] ws[k])
}

proof fn lemma_scan_append_word(s: Seq<char>, w: Seq<char>)
    requires
        forall|k: int| 0 <= k < w.len() ==> !is_space(#[trigger] w[k]),
    ensures
        split_scan(s + w) == (split_scan(s).0, split_scan(s).1 + w),
    decreases w.len(),
{
    if w.len() == 0 {
        assert(s + w == s);
        assert(split_scan(s).1 + w == split_scan(s).1);
    } else {
        lemma_scan_append_word(s, w.drop_last());
        assert((s + w).drop_last() == s + w.drop_last());
        assert(w.last() == w[w.len() - 1]);
        assert((split_scan(s).1 + w.drop_last()).push(w.last()) == split_scan(s).1 + w);
    }
}

proof fn lemma_scan_joined(ws: Seq<Seq<char>>)
    requires
        all_tokens(ws),
        ws.len() > 0,
    ensures
        split_scan(joined(ws)) == (ws.drop_last(), ws.last()),
    decreases ws.len(),
{
    if ws.len() == 1 {
        assert(is_token(ws[0]));
        lemma_scan_append_word(Seq::empty(), ws[0]);
        assert(Seq::<char>::empty() + ws[0] == ws[0]);
        assert(Seq::<Seq<char>>::empty() == ws.drop_last());
        assert(Seq::<char>::empty() + ws[0] == ws[0]);
    } else {
        let init = ws.drop_last();
        assert(all_tokens(init));
        lemma_scan_joined(init);
        let p = joined(init) + seq![' '];
        assert(p.drop_last() == joined(init));
        assert(is_space(' '));
        assert(is_token(init.last()));
        assert(init.drop_last().push(init.last()) == init);
        assert(split_scan(p) == (init, Seq::<char>::empty()));
        assert(is_token(ws.last()));
        lemma_scan_append_word(p, ws.last());
        assert(Seq::<char>::empty() + ws.last() == ws.last());
    }
}

/// Joining tokens with single spaces and splitting on whitespace gives the
/// tokens back.
pub proof fn lemma_words_of_joined(ws: Seq<Seq<char>>)
    requires
        all_tokens(ws),
    ensures
        words(joined(ws)) == ws,
{
    if ws.len() > 0 {
        lemma_scan_joined(ws);
        assert(is_token(ws.last()));
        assert(ws.drop_last().push(ws.last()) == ws);
    } else {
        assert(split_scan(Seq::<char>::empty()) == (Seq::<Seq<char>>::empty(), Seq::<char>::empty()));
    }
}

proof fn lemma_scan_tokens(s: Seq<char>)
    ensures
        all_tokens(split_scan(s).0),
        forall|k: int| 0 <= k < split_scan(s).1.len() ==> !is_space(#[trigger] split_scan(s).1[k]),
    decreases s.len(),
{
    if s.len() > 0 {
        lemma_scan_tokens(s.drop_last());
    }
}

/// Splitting yields only tokens.
pub proof fn lemma_words_are_tokens(s: Seq<char>)
    ensures
        all_tokens(words(s)),
{
    lemma_scan_tokens(s);
}

/// Splits `text` into its whitespace-separated words.
pub fn split_words(text: &str) -> (r: Vec<String>)
    ensures
        views(r@) == words(text@),
{
    let cs = chars_of(text);
    let mut done: Vec<String> = Vec::new();
    let mut cur: Vec<char> = Vec::new();
    let mut i: usize = 0;
    while i < cs.len()
        invariant
            i <= cs@.len(),
            cs@ == text@,
            split_scan(cs@.subrange(0, i as int)) == (views(done@), cur@),
        decreases cs@.len() - i,
    {
        let c = cs[i];
        assert(cs@.subrange(0, i + 1).drop_last() == cs@.subrange(0, i as int));
        if char_is_space(c) {
            if cur.len() > 0 {
                let w = string_from_chars(&cur);
                let ghost before = done@;
                done.push(w);
                assert(views(done@) == views(before).push(cur@));
                cur = Vec::new();
            }
        } else {
            cur.push(c);
        }
        i = i + 1;
    }
    assert(cs@.subrange(0, cs@.len() as int) == cs@);
    if cur.len() > 0 {
        let w = string_from_chars(&cur);
        let ghost before = done@;
        done.push(w);
        assert(views(done@) == views(before).push(cur@));
    }
    done
}

/// Joins the words with single spaces.
pub fn join_words(ws: &Vec<String>) -> (r: String)
    ensures
        r@ == joined(views(ws@)),
{
    let mut out: Vec<char> = Vec::new();
    let mut i: usize = 0;
    while i < ws.len()
        invariant
            i <= ws@.len(),
            out@ == joined(views(ws@.subrange(0, i as int))),
        decreases ws@.len() - i,
    {
        let ghost before = out@;
        let part = chars_of(ws[i].as_str());
        if i > 0 {
            out.push(' ');
        }
        let mut j: usize = 0;
        let ghost mid = out@;
        while j < part.len()
            invariant
                j <= part@.len(),
                out@ == mid + part@.subrange(0, j as int),
            decreases part@.len() - j,
        {
            out.push(part[j]);
            j = j + 1;
        }
        proof {
            let pre = views(ws@.subrange(0, i as int));
            let now = views(ws@.subrange(0, i + 1));
            assert(part@.subrange(0, part@.len() as int) == part@);
            assert(now.drop_last() == pre);
            assert(now.last() == ws@[i as int]@);
            if i == 0 {
                assert(out@ == now[0]);
            } else {
                assert(out@ == joined(pre) + seq![' '] + now.last());
            }
        }
        i = i + 1;
    }
    assert(ws@.subrange(0, ws@.len() as int) == ws@);
    string_from_chars(&out)
}

} // verus!
