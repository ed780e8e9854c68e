//! Text normalization and tokenization.
//!
//! A text is first decomposed canonically (Unicode normalization form D),
//! which parts an accented letter into the letter and its marks.  What follows
//! is plain character work: non-ASCII characters are dropped, punctuation
//! becomes a space, letters are folded to lower case, the text is split at
//! runs of whitespace and stop words are left out.

use unicode_normalization::UnicodeNormalization;
use vstd::prelude::*;

verus! {

/// The canonical decomposition (Unicode normalization form D) of a text.
pub uninterp spec fn nfd(text: Seq<char>) -> Seq<char>;

/// Whether `c` lies in the ASCII range.
pub open spec fn is_ascii_char(c: char) -> bool {
    (c as u32) < 128
}

/// Whether `c` is an ASCII letter or digit.
pub open spec fn is_alnum(c: char) -> bool {
    ('0' <= c && c <= '9') || ('a' <= c && c <= 'z') || ('A' <= c && c <= 'Z')
}

/// Whether `c` is ASCII whitespace: space, tab, line feed, form feed or
/// carriage return.
pub open spec fn is_space(c: char) -> bool {
    c == ' ' || c == '\t' || c == '\n' || c == '\x0C' || c == '\r'
}

/// The lower-case form of an ASCII character.
pub open spec fn lower(c: char) -> char {
    if 'A' <= c && c <= 'Z' {
        ((c as u32) + 32) as char
    } else {
        c
    }
}

/// An ASCII character with punctuation replaced by a space.
pub open spec fn blank(c: char) -> char {
    if is_alnum(c) || is_space(c) {
        c
    } else {
        ' '
    }
}

/// The predicate that keeps ASCII characters.
pub open spec fn keep_ascii() -> spec_fn(char) -> bool {
    |c: char| is_ascii_char(c)
}

/// The predicate that keeps ASCII letters, digits and whitespace.
pub open spec fn keep_plain() -> spec_fn(char) -> bool {
    |c: char| is_alnum(c) || is_space(c)
}

/// Punctuation to space, then lower case, on one character.
pub open spec fn scrub() -> spec_fn(char) -> char {
    |c: char| lower(blank(c))
}

/// Lower case on one character.
pub open spec fn fold_case() -> spec_fn(char) -> char {
    |c: char| lower(c)
}

/// A decomposed text made ready for splitting: its ASCII characters, each
/// with punctuation blanked and letters in lower case.
pub open spec fn cleaned(s: Seq<char>) -> Seq<char> {
    s.filter(keep_ascii()).map_values(scrub())
}

/// A decomposed text reduced to its ASCII letters, digits and whitespace,
/// in lower case.  Nothing is split and no word is left out.
pub open spec fn normalized(s: Seq<char>) -> Seq<char> {
    s.filter(keep_plain()).map_values(fold_case())
}

/// The number of characters before the first whitespace of `s`.
pub open spec fn word_len(s: Seq<char>) -> nat
    decreases s.len(),
{
    if s.len() == 0 || is_space(s[0]) {
        0
    } else {
        1 + word_len(s.drop_first())
    }
}

/// The words of `s`: its maximal runs of characters that are not
/// whitespace, in order.
pub open spec fn split_words(s: Seq<char>) -> Seq<Seq<char>>
    decreases s.len(),
    via split_words_decreases
{
    if s.len() == 0 {
        Seq::empty()
    } else if is_space(s[0]) {
        split_words(s.drop_first())
    } else {
        seq![s.take(word_len(s) as int)] + split_words(s.skip(word_len(s) as int))
    }
}

#[via_fn]
proof fn split_words_decreases(s: Seq<char>) {
    if s.len() != 0 && !is_space(s[0]) {
        lemma_word_len_bounds(s);
    }
}

/// A word is never longer than the text it starts, and holds no whitespace.
pub proof fn lemma_word_len_bounds(s: Seq<char>)
    ensures
        word_len(s) <= s.len(),
        forall|k: int| 0 <= k < word_len(s) ==> !is_space(#[trigger] s[k]),
        word_len(s) < s.len() ==> is_space(s[word_len(s) as int]),
    decreases s.len(),
{
    if s.len() != 0 && !is_space(s[0]) {
        let rest = s.drop_first();
        lemma_word_len_bounds(rest);
        assert forall|k: int| 0 <= k < word_len(s) implies !is_space(#[trigger] s[k]) by {
            if k > 0 {
                assert(s[k] == rest[k - 1]);
            }
        }
        if word_len(s) < s.len() {
            assert(s[word_len(s) as int] == rest[word_len(rest) as int]);
        }
    }
}

/// Whether `w` is one of the function words that are never indexed.
pub open spec fn is_stop_word(w: Seq<char>) -> bool {
    ||| w =~= seq!['e']
    ||| w =~= seq!['d', 'e']
    ||| w =~= seq!['o']
    ||| w =~= seq!['a']
    ||| w =~= seq!['o', 's']
    ||| w =~= seq!['a', 's']
    ||| w =~= seq!['p', 'a', 'r', 'a']
    ||| w =~= seq!['e', 'm']
    ||| w =~= seq!['u', 'm']
    ||| w =~= seq!['u', 'm', 'a']
    ||| w =~= seq!['c', 'o', 'm']
}

/// The predicate that keeps every word but the stop words.
pub open spec fn keep_term() -> spec_fn(Seq<char>) -> bool {
    |w: Seq<char>| !is_stop_word(w)
}

/// The terms of a decomposed text: the words of its cleaned form, in order
/// and with repetitions, without the stop words.
pub open spec fn terms_of(s: Seq<char>) -> Seq<Seq<char>> {
    split_words(cleaned(s)).filter(keep_term())
}

/// A sequence of strings as the sequence of their characters.
pub open spec fn term_seq(v: Seq<String>) -> Seq<Seq<char>> {
    v.map_values(|t: String| t@)
}

/// `String::push` of the standard library: the character is appended at the
/// end of the string.
pub assume_specification[ String::push ](s: &mut String, c: char)
    ensures
        final(s)@ == old(s)@.push(c),
;

/// Calls `UnicodeNormalization::nfd` of the crate `unicode_normalization` on
/// the text and collects the characters that its iterator yields.  The
/// contract gives that sequence the name `nfd(text@)` and claims nothing
/// more of it.
#[verifier::external_body]
fn decompose(text: &str) -> (chars: Vec<char>)
    ensures
        chars@ == nfd(text@),
{
    text.nfd().collect()
}

fn char_is_ascii(c: char) -> (b: bool)
    ensures
        b == is_ascii_char(c),
{
    c <= '\x7F'
}

fn char_is_alnum(c: char) -> (b: bool)
    ensures
        b == is_alnum(c),
{
    ('0' <= c && c <= '9') || ('a' <= c && c <= 'z') || ('A' <= c && c <= 'Z')
}

fn char_is_space(c: char) -> (b: bool)
    ensures
        b == is_space(c),
{
    c == ' ' || c == '\t' || c == '\n' || c == '\x0C' || c == '\r'
}

fn char_lower(c: char) -> (r: char)
    ensures
        r == lower(c),
{
    if 'A' <= c && c <= 'Z' {
        ((c as u8) + 32u8) as char
    } else {
        c
    }
}

/// Scanning a text one character further either appends that character to
/// the cleaned text or leaves the cleaned text as it is.
proof fn lemma_cleaned_step(s: Seq<char>, i: int)
    requires
        0 <= i < s.len(),
    ensures
        cleaned(s.take(i + 1)) == if is_ascii_char(s[i]) {
            cleaned(s.take(i)).push(lower(blank(s[i])))
        } else {
            cleaned(s.take(i))
        },
{
    let front = s.take(i);
    assert(s.take(i + 1) =~= front.push(s[i]));
    front.lemma_filter_push(s[i], keep_ascii());
    if is_ascii_char(s[i]) {
        front.filter(keep_ascii()).lemma_push_map_commute(scrub(), s[i]);
    }
}

/// The same step for the plain normalization.
proof fn lemma_normalized_step(s: Seq<char>, i: int)
    requires
        0 <= i < s.len(),
    ensures
        normalized(s.take(i + 1)) == if is_alnum(s[i]) || is_space(s[i]) {
            normalized(s.take(i)).push(lower(s[i]))
        } else {
            normalized(s.take(i))
        },
{
    let front = s.take(i);
    assert(s.take(i + 1) =~= front.push(s[i]));
    front.lemma_filter_push(s[i], keep_plain());
    if is_alnum(s[i]) || is_space(s[i]) {
        front.filter(keep_plain()).lemma_push_map_commute(fold_case(), s[i]);
    }
}

/// A run of `n` characters without whitespace that ends the text or is
/// followed by whitespace is the first word of the text.
proof fn lemma_word_len_is(s: Seq<char>, n: int)
    requires
        0 <= n <= s.len(),
        forall|k: int| 0 <= k < n ==> !is_space(#[trigger] s[k]),
        n < s.len() ==> is_space(s[n]),
    ensures
        word_len(s) == n,
    decreases n,
{
    if n > 0 {
        let rest = s.drop_first();
        assert forall|k: int| 0 <= k < n - 1 implies !is_space(#[trigger] rest[k]) by {
            assert(rest[k] == s[k + 1]);
        }
        lemma_word_len_is(rest, n - 1);
    }
}

fn clean(chars: &Vec<char>) -> (out: Vec<char>)
    ensures
        out@ == cleaned(chars@),
{
    let mut out: Vec<char> = Vec::new();
    let mut i: usize = 0;
    proof {
        reveal(Seq::filter);
        assert(chars@.take(0).filter(keep_ascii()) =~= Seq::<char>::empty());
        assert(cleaned(chars@.take(0)) =~= out@);
    }
    while i < chars.len()
        invariant
            i <= chars.len(),
            out@ == cleaned(chars@.take(i as int)),
        decreases chars.len() - i,
    {
        let c = chars[i];
        proof {
            lemma_cleaned_step(chars@, i as int);
        }
        if char_is_ascii(c) {
            let kept = if char_is_alnum(c) || char_is_space(c) {
                c
            } else {
                ' '
            };
            out.push(char_lower(kept));
        }
        i += 1;
    }
    assert(chars@.take(chars.len() as int) =~= chars@);
    out
}

fn is_stop_at(text: &Vec<char>, start: usize, end: usize) -> (b: bool)
    requires
        start <= end <= text.len(),
    ensures
        b == is_stop_word(text@.subrange(start as int, end as int)),
{
    let ghost w = text@.subrange(start as int, end as int);
    let n = end - start;
    if n == 1 {
        let a = text[start];
        assert(a == w[0]);
        a == 'e' || a == 'o' || a == 'a'
    } else if n == 2 {
        let a = text[start];
        let b = text[start + 1];
        assert(a == w[0] && b == w[1]);
        (a == 'd' && b == 'e') || (a == 'o' && b == 's') || (a == 'a' && b == 's') || (a == 'e'
            && b == 'm') || (a == 'u' && b == 'm')
    } else if n == 3 {
        let a = text[start];
        let b = text[start + 1];
        let c = text[start + 2];
        assert(a == w[0] && b == w[1] && c == w[2]);
        (a == 'u' && b == 'm' && c == 'a') || (a == 'c' && b == 'o' && c == 'm')
    } else if n == 4 {
        let a = text[start];
        let b = text[start + 1];
        let c = text[start + 2];
        let d = text[start + 3];
        assert(a == w[0] && b == w[1] && c == w[2] && d == w[3]);
        a == 'p' && b == 'a' && c == 'r' && d == 'a'
    } else {
        false
    }
}

fn split_terms(text: &Vec<char>) -> (terms: Vec<String>)
    ensures
        term_seq(terms@) == split_words(text@).filter(keep_term()),
{
    let mut terms: Vec<String> = Vec::new();
    let mut i: usize = 0;
    proof {
        assert(text@.skip(0) =~= text@);
        assert(term_seq(terms@) =~= Seq::<Seq<char>>::empty());
        assert(term_seq(terms@) + split_words(text@.skip(0)).filter(keep_term())
            =~= split_words(text@).filter(keep_term()));
    }
    while i < text.len()
        invariant
            i <= text.len(),
            term_seq(terms@) + split_words(text@.skip(i as int)).filter(keep_term())
                == split_words(text@).filter(keep_term()),
        decreases text.len() - i,
    {
        if char_is_space(text[i]) {
            proof {
                assert(text@.skip(i as int).drop_first() =~= text@.skip(i + 1));
            }
            i += 1;
        } else {
            let start = i;
            let mut word = String::new();
            while i < text.len() && !char_is_space(text[i])
                invariant
                    start <= i <= text.len(),
                    word@ == text@.subrange(start as int, i as int),
                    forall|k: int| start <= k < i ==> !is_space(#[trigger] text@[k]),
                decreases text.len() - i,
            {
                word.push(text[i]);
                proof {
                    assert(text@.subrange(start as int, i + 1) =~= text@.subrange(
                        start as int,
                        i as int,
                    ).push(text@[i as int]));
                }
                i += 1;
            }
            proof {
                let tail = text@.skip(start as int);
                let n = i - start;
                assert forall|k: int| 0 <= k < n implies !is_space(#[trigger] tail[k]) by {
                    assert(tail[k] == text@[start + k]);
                }
                lemma_word_len_is(tail, n);
                assert(tail.take(n) =~= word@);
                assert(tail.skip(n) =~= text@.skip(i as int));
                let rest = split_words(text@.skip(i as int));
                assert(split_words(tail) == seq![word@] + rest);
                Seq::filter_distributes_over_add(seq![word@], rest, keep_term());
                assert(seq![word@] =~= Seq::<Seq<char>>::empty().push(word@));
                Seq::<Seq<char>>::empty().lemma_filter_push(word@, keep_term());
                reveal(Seq::filter);
                assert(Seq::<Seq<char>>::empty().filter(keep_term()) =~= Seq::<Seq<char>>::empty());
            }
            let ghost before = term_seq(terms@);
            if !is_stop_at(text, start, i) {
                terms.push(word);
                proof {
                    assert(term_seq(terms@) =~= before.push(word@));
                    assert(before.push(word@) + split_words(text@.skip(i as int)).filter(keep_term())
                        =~= before + (seq![word@] + split_words(text@.skip(i as int)).filter(
                        keep_term(),
                    )));
                }
            }
        }
    }
    proof {
        assert(split_words(text@.skip(i as int)) =~= Seq::<Seq<char>>::empty());
        reveal(Seq::filter);
        assert(split_words(text@.skip(i as int)).filter(keep_term()) =~= Seq::<Seq<char>>::empty());
        assert(term_seq(terms@) + Seq::<Seq<char>>::empty() =~= term_seq(terms@));
    }
    terms
}

/// The terms of a text that is already decomposed: see `terms_of`.
pub fn tokenize_chars(chars: &Vec<char>) -> (terms: Vec<String>)
    ensures
        term_seq(terms@) == terms_of(chars@),
{
    let text = clean(chars);
    split_terms(&text)
}

/// Splits a text into its terms.
///
/// The text is decomposed canonically; the terms are those of the
/// decomposed text, in the order of the text and with repetitions.  An empty
/// text, or one of whitespace only, has no terms.
pub fn tokenize(text: &str) -> (terms: Vec<String>)
    ensures
        term_seq(terms@) == terms_of(nfd(text@)),
{
    let chars = decompose(text);
    tokenize_chars(&chars)
}

/// The plain normalization of a text that is already decomposed: see
/// `normalized`.
pub fn normalize_chars(chars: &Vec<char>) -> (out: String)
    ensures
        out@ == normalized(chars@),
{
    let mut out = String::new();
    let mut i: usize = 0;
    proof {
        reveal(Seq::filter);
        assert(chars@.take(0).filter(keep_plain()) =~= Seq::<char>::empty());
        assert(normalized(chars@.take(0)) =~= out@);
    }
    while i < chars.len()
        invariant
            i <= chars.len(),
            out@ == normalized(chars@.take(i as int)),
        decreases chars.len() - i,
    {
        let c = chars[i];
        proof {
            lemma_normalized_step(chars@, i as int);
        }
        if char_is_alnum(c) || char_is_space(c) {
            out.push(char_lower(c));
        }
        i += 1;
    }
    assert(chars@.take(chars.len() as int) =~= chars@);
    out
}

/// Normalizes an attribute value for comparison: the text is decomposed, only
/// ASCII letters, digits and whitespace are kept, and letters are folded to
/// lower case.  Unlike `tokenize` it neither splits nor drops stop words.
pub fn normalize(text: &str) -> (out: String)
    ensures
        out@ == normalized(nfd(text@)),
{
    let chars = decompose(text);
    normalize_chars(&chars)
}

/// Whether `w` can be a term: it is not empty and holds no whitespace.
pub open spec fn is_term(w: Seq<char>) -> bool {
    w.len() > 0 && forall|k: int| 0 <= k < w.len() ==> !is_space(#[trigger] w[k])
}

/// Every word of a text is not empty and holds no whitespace.
pub proof fn lemma_words_are_terms(s: Seq<char>)
    ensures
        forall|i: int| 0 <= i < split_words(s).len() ==> is_term(#[trigger] split_words(s)[i]),
    decreases s.len(),
{
    if s.len() == 0 {
        assert(split_words(s).len() == 0);
    } else if is_space(s[0]) {
        lemma_words_are_terms(s.drop_first());
        assert(split_words(s) == split_words(s.drop_first()));
    } else {
        let n = word_len(s) as int;
        lemma_word_len_bounds(s);
        let first = s.take(n);
        let rest = split_words(s.skip(n));
        assert(n >= 1);
        lemma_words_are_terms(s.skip(n));
        assert(split_words(s) == seq![first] + rest);
        assert(is_term(first)) by {
            assert forall|k: int| 0 <= k < first.len() implies !is_space(#[trigger] first[k]) by {
                assert(first[k] == s[k]);
            }
        }
        assert forall|i: int| 0 <= i < split_words(s).len() implies is_term(
            #[trigger] split_words(s)[i],
        ) by {
            if i > 0 {
                assert(split_words(s)[i] == rest[i - 1]);
            } else {
                assert(split_words(s)[0] == first);
            }
        }
    }
}

/// Every term of a text is not empty and holds no whitespace, so the terms
/// of a query can be told apart in its key.
pub proof fn lemma_terms_are_terms(s: Seq<char>)
    ensures
        forall|i: int| 0 <= i < terms_of(s).len() ==> is_term(#[trigger] terms_of(s)[i]),
{
    let words = split_words(cleaned(s));
    lemma_words_are_terms(cleaned(s));
    assert forall|i: int| 0 <= i < terms_of(s).len() implies is_term(#[trigger] terms_of(s)[i]) by {
        let w = terms_of(s)[i];
        assert(words.filter(keep_term()).contains(w));
        words.lemma_filter_contains_rev(keep_term(), w);
        let j = choose|j: int| 0 <= j < words.len() && words[j] == w;
        assert(is_term(words[j]));
    }
}

/// No stop word is a term of a text.
pub proof fn lemma_terms_hold_no_stop_word(s: Seq<char>)
    ensures
        forall|i: int| 0 <= i < terms_of(s).len() ==> !is_stop_word(#[trigger] terms_of(s)[i]),
{
    let words = split_words(cleaned(s));
    assert forall|i: int| 0 <= i < terms_of(s).len() implies !is_stop_word(
        #[trigger] terms_of(s)[i],
    ) by {
        words.lemma_filter_pred(keep_term(), i);
    }
}

} // verus!
