use vstd::prelude::*;

verus! {

/// An ASCII letter, upper or lower case.
pub open spec fn is_ascii_letter(c: char) -> bool {
    ('a' <= c && c <= 'z') || ('A' <= c && c <= 'Z')
}

/// A lower-case ASCII letter.
pub open spec fn is_lower_letter(c: char) -> bool {
    'a' <= c && c <= 'z'
}

/// The lower-case form of an ASCII letter; any other character is kept.
pub open spec fn ascii_lower(c: char) -> char {
    if 'A' <= c && c <= 'Z' {
        ((c as u8) + 32u8) as char
    } else {
        c
    }
}

/// What a word becomes as a token: its ASCII letters, in order, in lower case.
pub open spec fn normalize(s: Seq<char>) -> Seq<char> {
    s.filter_map(|c: char| if is_ascii_letter(c) { Some(ascii_lower(c)) } else { None })
}

fn lower_letter(c: char) -> (r: Option<char>)
    ensures
        r == (if is_ascii_letter(c) { Some(ascii_lower(c)) } else { None::<char> }),
{
    if 'a' <= c && c <= 'z' {
        Some(c)
    } else if 'A' <= c && c <= 'Z' {
        Some(((c as u8) + 32u8) as char)
    } else {
        None
    }
}

/// Builds a `String` from its characters.
/// Relies on `FromIterator<&char> for String` (via `Iterator::collect`): the string holds
/// the characters in the order the iterator yields them.
#[verifier::external_body]
fn string_from_chars(v: &Vec<char>) -> (r: String)
    ensures
        r@ == v@,
{
    v.iter().collect()
}

/// Normalizes one word: drops every character that is not an ASCII letter and lower-cases the rest.
pub fn clean_word(word: &str) -> (r: String)
    ensures
        r@ == normalize(word@),
        forall|i: int| 0 <= i < r@.len() ==> is_lower_letter(#[trigger] r@[i]),
{
    let mut out: Vec<char> = Vec::new();
    for c in it: word.chars()
        invariant
            it.seq() == word@,
            out@ == normalize(it.seq().take(it.index() as int)),
    {
        proof {
            assert(it.seq().take(it.index() + 1).drop_last() == it.seq().take(it.index() as int));
        }
        match lower_letter(c) {
            Some(l) => out.push(l),
            None => {},
        }
    }
    proof {
        assert(word@.take(word@.len() as int) == word@);
        lemma_normalize_lowercase(word@);
    }
    string_from_chars(&out)
}

/// Every character of a normalized word is a lower-case ASCII letter; no digit, punctuation
/// or upper-case letter survives.
pub proof fn lemma_normalize_lowercase(s: Seq<char>)
    ensures
        forall|i: int| 0 <= i < normalize(s).len() ==> is_lower_letter(#[trigger] normalize(s)[i]),
    decreases s.len(),
{
    if s.len() > 0 {
        lemma_normalize_lowercase(s.drop_last());
        let c = s.last();
        if is_ascii_letter(c) {
            assert(is_lower_letter(ascii_lower(c)));
            assert(normalize(s) == normalize(s.drop_last()).push(ascii_lower(c)));
        } else {
            assert(normalize(s) == normalize(s.drop_last()));
        }
    }
}

/// Normalizing a normalized word changes nothing.
pub proof fn lemma_normalize_idempotent(s: Seq<char>)
    ensures
        normalize(normalize(s)) == normalize(s),
    decreases s.len(),
{
    if s.len() > 0 {
        lemma_normalize_idempotent(s.drop_last());
        let n = normalize(s);
        let rest = normalize(s.drop_last());
        if is_ascii_letter(s.last()) {
            lemma_normalize_lowercase(s);
            assert(n.drop_last() == rest);
        } else {
            assert(n == rest);
        }
    }
}

/// A character with the Unicode `White_Space` property, the set that `char::is_whitespace` tests.
pub open spec fn is_white_space(c: char) -> bool {
    ('\u{9}' <= c && c <= '\u{d}') || c == ' ' || c == '\u{85}' || c == '\u{a0}' || c == '\u{1680}'
        || ('\u{2000}' <= c && c <= '\u{200a}') || c == '\u{2028}' || c == '\u{2029}'
        || c == '\u{202f}' || c == '\u{205f}' || c == '\u{3000}'
}

fn white_space(c: char) -> (r: bool)
    ensures
        r == is_white_space(c),
{
    ('\u{9}' <= c && c <= '\u{d}') || c == ' ' || c == '\u{85}' || c == '\u{a0}' || c == '\u{1680}'
        || ('\u{2000}' <= c && c <= '\u{200a}') || c == '\u{2028}' || c == '\u{2029}'
        || c == '\u{202f}' || c == '\u{205f}' || c == '\u{3000}'
}

/// Reads `s` from the left: the chunks already closed by white space, and the chunk still open.
pub open spec fn chunk_scan(s: Seq<char>) -> (Seq<Seq<char>>, Seq<char>)
    decreases s.len(),
{
    if s.len() == 0 {
        (Seq::empty(), Seq::empty())
    } else {
        let (done, open) = chunk_scan(s.drop_last());
        let c = s.last();
        if is_white_space(c) {
            if open.len() > 0 {
                (done.push(open), Seq::empty())
            } else {
                (done, open)
            }
        } else {
            (done, open.push(c))
        }
    }
}

/// The maximal runs of non-white-space characters of `s`, in order.
pub open spec fn chunks(s: Seq<char>) -> Seq<Seq<char>> {
    let (done, open) = chunk_scan(s);
    if open.len() > 0 {
        done.push(open)
    } else {
        done
    }
}

/// The token sequence of a text: one normalized token per white-space-separated chunk.
pub open spec fn tokens_of(s: Seq<char>) -> Seq<Seq<char>> {
    chunks(s).map_values(|w: Seq<char>| normalize(w))
}

/// The views of a vector of strings.
pub open spec fn views(v: Seq<String>) -> Seq<Seq<char>> {
    v.map_values(|w: String| w@)
}

fn push_token(out: &mut Vec<String>, chunk: &Vec<char>)
    ensures
        views(final(out)@) == views(old(out)@).push(normalize(chunk@)),
{
    let word = string_from_chars(chunk);
    let token = clean_word(word.as_str());
    out.push(token);
    proof {
        assert(views(final(out)@) =~= views(old(out)@).push(normalize(chunk@)));
    }
}

/// Splits a text on white space and normalizes every chunk. No chunk is dropped, also where
/// it normalizes to the empty token.
pub fn tokenize(text: &str) -> (r: Vec<String>)
    ensures
        views(r@) == tokens_of(text@),
        r@.len() == chunks(text@).len(),
{
    let mut out: Vec<String> = Vec::new();
    let mut open: Vec<char> = Vec::new();
    for c in it: text.chars()
        invariant
            it.seq() == text@,
            views(out@) == chunk_scan(it.seq().take(it.index() as int)).0.map_values(
                |w: Seq<char>| normalize(w),
            ),
            open@ == chunk_scan(it.seq().take(it.index() as int)).1,
    {
        proof {
            assert(it.seq().take(it.index() + 1).drop_last() == it.seq().take(it.index() as int));
        }
        if white_space(c) {
            if open.len() > 0 {
                push_token(&mut out, &open);
                open = Vec::new();
                proof {
                    assert(open@ =~= Seq::<char>::empty());
                }
            }
        } else {
            open.push(c);
        }
        proof {
            let pre = it.seq().take(it.index() as int);
            let post = it.seq().take(it.index() + 1);
            assert(post.last() == c);
            assert(chunk_scan(pre).0.map_values(|w: Seq<char>| normalize(w)).push(normalize(chunk_scan(pre).1))
                =~= chunk_scan(pre).0.push(chunk_scan(pre).1).map_values(|w: Seq<char>| normalize(w)));
        }
    }
    proof {
        assert(text@.take(text@.len() as int) == text@);
        let (done, last) = chunk_scan(text@);
        assert(done.map_values(|w: Seq<char>| normalize(w)).push(normalize(last))
            =~= done.push(last).map_values(|w: Seq<char>| normalize(w)));
    }
    if open.len() > 0 {
        push_token(&mut out, &open);
    }
    out
}

} // verus!
