//! Character-level helpers: conversions between strings and character
//! vectors, and the two spellings of dataset keys.

use vstd::prelude::*;
use vstd::std_specs::iter::IteratorSpec;
use vstd::string::{axiom_spec_iter, next_postcondition};

verus! {

/// `String::push` appends one character to the end of the string.
pub assume_specification[ String::push ](s: &mut String, c: char)
    ensures
        final(s)@ == old(s)@.push(c),
;

/// The upper-case form of an ASCII letter; every other character is itself.
pub open spec fn ascii_upper(c: char) -> char {
    if 'a' <= c && c <= 'z' {
        ((c as u8) - 32) as char
    } else {
        c
    }
}

/// `char::to_ascii_uppercase` maps `a`..=`z` to `A`..=`Z` and leaves every
/// other character unchanged.
pub assume_specification[ char::to_ascii_uppercase ](c: &char) -> (r: char)
    ensures
        r == ascii_upper(*c),
;

/// The characters of `s`, in order.
pub fn chars_of(s: &str) -> (v: Vec<char>)
    ensures
        v@ == s@,
{
    broadcast use {axiom_spec_iter, next_postcondition};

    let mut v: Vec<char> = Vec::new();
    let mut it = s.chars();
    loop
        invariant
            v@ + it.remaining() == s@,
            it.decrease() is Some,
        ensures
            v@ == s@,
        decreases it.decrease()->0,
    {
        match it.next() {
            Some(c) => {
                v.push(c);
                assert(v@ + it.remaining() =~= s@);
            },
            None => {
                assert(v@ =~= s@);
                break ;
            },
        }
    }
    v
}

/// The string made of the characters of `v`, in order.
pub fn string_of(v: &Vec<char>) -> (s: String)
    ensures
        s@ == v@,
{
    let mut s = String::new();
    let mut i: usize = 0;
    while i < v.len()
        invariant
            i <= v.len(),
            s@ == v@.take(i as int),
        decreases v.len() - i,
    {
        s.push(v[i]);
        i += 1;
    }
    s
}

/// The lower-case form of an ASCII letter; every other character is itself.
pub open spec fn ascii_lower(c: char) -> char {
    if 'A' <= c && c <= 'Z' {
        ((c as u8) + 32) as char
    } else {
        c
    }
}

/// `char::to_ascii_lowercase` maps `A`..=`Z` to `a`..=`z` and leaves every
/// other character unchanged.
pub assume_specification[ char::to_ascii_lowercase ](c: &char) -> (r: char)
    ensures
        r == ascii_lower(*c),
;

/// Whether Unicode counts the character as an upper-case letter.
pub uninterp spec fn is_uppercase_char(c: char) -> bool;

/// `char::is_uppercase` tells whether the character has the Unicode property
/// `Uppercase`.
pub assume_specification[ char::is_uppercase ](c: char) -> (r: bool)
    ensures
        r == is_uppercase_char(c),
;

/// What the character at index `i` of a dashed name gives to the camel-case
/// name: nothing for a dash, its upper-case form right after a dash, itself
/// otherwise.
pub open spec fn camel_piece(s: Seq<char>, i: int) -> Seq<char> {
    if s[i] == '-' {
        Seq::empty()
    } else if i > 0 && s[i - 1] == '-' {
        seq![ascii_upper(s[i])]
    } else {
        seq![s[i]]
    }
}

/// The camel-case form of the first `n` characters of a dashed name.
pub open spec fn camel_of(s: Seq<char>, n: nat) -> Seq<char>
    decreases n,
{
    if n == 0 {
        Seq::empty()
    } else {
        camel_of(s, (n - 1) as nat) + camel_piece(s, n - 1)
    }
}

/// What the character at index `i` of a camel-case name gives to the dashed
/// name: an upper-case letter gives a dash, except at the very start, and its
/// ASCII lower-case form; any other character gives itself.
pub open spec fn kebab_piece(s: Seq<char>, i: int) -> Seq<char> {
    if is_uppercase_char(s[i]) {
        if i > 0 {
            seq!['-', ascii_lower(s[i])]
        } else {
            seq![ascii_lower(s[i])]
        }
    } else {
        seq![s[i]]
    }
}

/// The dashed form of the first `n` characters of a camel-case name.
pub open spec fn kebab_of(s: Seq<char>, n: nat) -> Seq<char>
    decreases n,
{
    if n == 0 {
        Seq::empty()
    } else {
        kebab_of(s, (n - 1) as nat) + kebab_piece(s, n - 1)
    }
}

/// Turns a dashed name into a camel-case name: dashes are dropped, and the
/// character after a dash is put into ASCII upper case.
pub fn kebab_to_camel(s: &str) -> (r: String)
    ensures
        r@ == camel_of(s@, s@.len()),
{
    let v = chars_of(s);
    let mut r = String::new();
    let mut next_upper = false;
    let mut i: usize = 0;
    while i < v.len()
        invariant
            i <= v.len(),
            v@ == s@,
            r@ == camel_of(s@, i as nat),
            next_upper == (i > 0 && s@[i - 1] == '-'),
        decreases v.len() - i,
    {
        let c = v[i];
        if c == '-' {
            next_upper = true;
            assert(camel_piece(s@, i as int) =~= Seq::empty());
            assert(r@ + camel_piece(s@, i as int) =~= r@);
        } else {
            if next_upper {
                r.push(c.to_ascii_uppercase());
                next_upper = false;
            } else {
                r.push(c);
            }
            assert(r@ =~= camel_of(s@, i as nat) + camel_piece(s@, i as int));
        }
        i += 1;
    }
    r
}

/// Turns a camel-case name into a dashed name: every upper-case letter is
/// put into ASCII lower case, with a dash before it unless it comes first.
pub fn camel_to_kebab(s: &str) -> (r: String)
    ensures
        r@ == kebab_of(s@, s@.len()),
{
    let v = chars_of(s);
    let mut r = String::new();
    let mut i: usize = 0;
    while i < v.len()
        invariant
            i <= v.len(),
            v@ == s@,
            r@ == kebab_of(s@, i as nat),
        decreases v.len() - i,
    {
        let c = v[i];
        if c.is_uppercase() {
            if i > 0 {
                r.push('-');
            }
            r.push(c.to_ascii_lowercase());
        } else {
            r.push(c);
        }
        assert(r@ =~= kebab_of(s@, i as nat) + kebab_piece(s@, i as int));
        i += 1;
    }
    r
}

/// Equality of string slices compares their characters.
pub assume_specification[ <str as PartialEq>::eq ](a: &str, b: &str) -> (r: bool)
    ensures
        r == (a@ == b@),
;

/// Whether the two texts hold the same characters.
pub fn same_str(a: &str, b: &str) -> (r: bool)
    ensures
        r == (a@ == b@),
{
    *a == *b
}

/// Whether Unicode counts the character as white space.
pub uninterp spec fn is_whitespace_char(c: char) -> bool;

/// `char::is_whitespace` tells whether the character has the Unicode property
/// `White_Space`.
pub assume_specification[ char::is_whitespace ](c: char) -> (r: bool)
    ensures
        r == is_whitespace_char(c),
;

/// The upper-case form of a text, as Unicode defines it.
pub uninterp spec fn uppercase_of(s: Seq<char>) -> Seq<char>;

/// The lower-case form of a text, as Unicode defines it.
pub uninterp spec fn lowercase_of(s: Seq<char>) -> Seq<char>;

/// `str::to_uppercase` returns the upper-case form of the text.
#[verifier::external_body]
pub(crate) fn to_upper(s: &str) -> (r: String)
    ensures
        r@ == uppercase_of(s@),
{
    s.to_uppercase()
}

/// `str::to_lowercase` returns the lower-case form of the text.
#[verifier::external_body]
pub(crate) fn to_lower(s: &str) -> (r: String)
    ensures
        r@ == lowercase_of(s@),
{
    s.to_lowercase()
}

/// The number of leading characters of `s` that are not white space.
pub open spec fn word_len(s: Seq<char>) -> nat
    decreases s.len(),
{
    if s.len() == 0 || is_whitespace_char(s[0]) {
        0
    } else {
        1 + word_len(s.skip(1))
    }
}

/// The leading word lies within the text, holds no white space, and ends at white space or at the end.
pub proof fn lemma_word_len(s: Seq<char>)
    ensures
        word_len(s) <= s.len(),
        forall|j: int| 0 <= j < word_len(s) ==> !is_whitespace_char(s[j]),
        word_len(s) < s.len() ==> is_whitespace_char(s[word_len(s) as int]),
    decreases s.len(),
{
    if s.len() == 0 || is_whitespace_char(s[0]) {
    } else {
        lemma_word_len(s.skip(1));
        let n = word_len(s.skip(1)) as int;
        assert forall|j: int| 0 <= j < word_len(s) implies !is_whitespace_char(s[j]) by {
            if j > 0 {
                assert(s.skip(1)[j - 1] == s[j]);
            }
        }
        if n < s.skip(1).len() {
            assert(s.skip(1)[n] == s[n + 1]);
        }
    }
}

/// A run of characters that are not white space, which ends at the end of
/// the text or before white space, is the leading word.
pub proof fn lemma_word_found(s: Seq<char>, n: int)
    requires
        0 <= n <= s.len(),
        forall|j: int| 0 <= j < n ==> !is_whitespace_char(s[j]),
        n == s.len() || is_whitespace_char(s[n]),
    ensures
        word_len(s) == n,
{
    lemma_word_len(s);
    let w = word_len(s) as int;
    if w < n {
        assert(is_whitespace_char(s[w]));
    }
}

/// The words of a text: its longest runs of characters that are not white
/// space, in order.
pub open spec fn tokens(s: Seq<char>) -> Seq<Seq<char>>
    decreases s.len(),
{
    if s.len() == 0 {
        Seq::empty()
    } else if is_whitespace_char(s[0]) {
        tokens(s.skip(1))
    } else {
        proof {
            lemma_word_len(s);
        }
        seq![s.take(word_len(s) as int)] + tokens(s.skip(word_len(s) as int))
    }
}

/// The texts of a list of strings.
pub open spec fn views(v: Seq<String>) -> Seq<Seq<char>> {
    Seq::new(v.len(), |i: int| v[i]@)
}

/// The string made of the characters of `v` from index `from` up to `to`.
pub fn string_from(v: &Vec<char>, from: usize, to: usize) -> (s: String)
    requires
        from <= to <= v.len(),
    ensures
        s@ == v@.subrange(from as int, to as int),
{
    let mut s = String::new();
    let mut i: usize = from;
    while i < to
        invariant
            from <= i <= to <= v.len(),
            s@ == v@.subrange(from as int, i as int),
        decreases to - i,
    {
        s.push(v[i]);
        assert(s@ =~= v@.subrange(from as int, i + 1));
        i += 1;
    }
    assert(v@.subrange(from as int, from as int) =~= Seq::<char>::empty());
    s
}

/// Cuts a text into its words.
pub fn split_tokens(s: &str) -> (r: Vec<String>)
    ensures
        views(r@) == tokens(s@),
{
    let v = chars_of(s);
    let n = v.len();
    let mut r: Vec<String> = Vec::new();
    let mut i: usize = 0;
    assert(s@.skip(0) =~= s@);
    assert(views(r@) =~= Seq::<Seq<char>>::empty());
    while i < n
        invariant
            i <= n,
            n == v.len(),
            v@ == s@,
            tokens(s@) == views(r@) + tokens(s@.skip(i as int)),
        decreases n - i,
    {
        let ghost rest = s@.skip(i as int);
        if v[i].is_whitespace() {
            assert(rest[0] == s@[i as int]);
            assert(rest.skip(1) =~= s@.skip(i + 1));
            i += 1;
        } else {
            let start = i;
            let mut j: usize = i;
            while j < n && !v[j].is_whitespace()
                invariant
                    start <= j <= n,
                    n == v.len(),
                    v@ == s@,
                    forall|k: int| start <= k < j ==> !is_whitespace_char(s@[k]),
                decreases n - j,
            {
                j += 1;
            }
            proof {
                assert(rest[0] == s@[i as int]);
                assert forall|k: int| 0 <= k < j - start implies !is_whitespace_char(rest[k]) by {
                    assert(rest[k] == s@[start + k]);
                }
                if j < n {
                    assert(rest[j - start] == s@[j as int]);
                }
                lemma_word_found(rest, j - start);
                assert(rest.take(j - start) =~= s@.subrange(start as int, j as int));
                assert(rest.skip(j - start) =~= s@.skip(j as int));
            }
            let word = string_from(&v, start, j);
            let ghost before = views(r@);
            r.push(word);
            assert(views(r@) =~= before.push(word@));
            assert(before + (seq![word@] + tokens(s@.skip(j as int))) =~= before.push(word@)
                + tokens(s@.skip(j as int)));
            i = j;
        }
    }
    assert(s@.skip(n as int) =~= Seq::<char>::empty());
    assert(views(r@) + Seq::<Seq<char>>::empty() =~= views(r@));
    r
}

/// The words joined by single spaces.
pub open spec fn joined(words: Seq<Seq<char>>) -> Seq<char>
    decreases words.len(),
{
    if words.len() == 0 {
        Seq::empty()
    } else if words.len() == 1 {
        words[0]
    } else {
        joined(words.drop_last()) + seq![' '] + words.last()
    }
}

/// Joins the words with single spaces between them.
pub fn join_tokens(words: &Vec<String>) -> (r: String)
    ensures
        r@ == joined(views(words@)),
{
    let mut r = String::new();
    let mut i: usize = 0;
    while i < words.len()
        invariant
            i <= words.len(),
            r@ == joined(views(words@).take(i as int)),
        decreases words.len() - i,
    {
        let ghost prefix = views(words@).take(i + 1);
        assert(prefix.drop_last() =~= views(words@).take(i as int));
        assert(prefix.last() == words[i as int]@);
        if i > 0 {
            r.push(' ');
        }
        r.append(words[i].as_str());
        proof {
            if i == 0 {
                assert(r@ =~= words[0]@);
            } else {
                assert(r@ =~= joined(prefix.drop_last()) + seq![' '] + prefix.last());
            }
        }
        i += 1;
    }
    assert(views(words@).take(words.len() as int) =~= views(words@));
    r
}

/// The index of the first character of `s` that is not white space, or the
/// length of `s` where there is none.
pub open spec fn lead_len(s: Seq<char>) -> nat
    decreases s.len(),
{
    if s.len() == 0 || !is_whitespace_char(s[0]) {
        0
    } else {
        1 + lead_len(s.skip(1))
    }
}

/// The number of characters of white space at the end of `s`.
pub open spec fn trail_len(s: Seq<char>) -> nat
    decreases s.len(),
{
    if s.len() == 0 || !is_whitespace_char(s.last()) {
        0
    } else {
        1 + trail_len(s.drop_last())
    }
}

/// The text without the white space at its start and at its end.
pub open spec fn trimmed(s: Seq<char>) -> Seq<char> {
    if lead_len(s) == s.len() {
        Seq::empty()
    } else {
        s.subrange(lead_len(s) as int, s.len() - trail_len(s))
    }
}

/// A run of white space from the start on, which ends at the end of the text or before another character, is the leading white space.
pub proof fn lemma_lead_found(s: Seq<char>, n: int)
    requires
        0 <= n <= s.len(),
        forall|j: int| 0 <= j < n ==> is_whitespace_char(s[j]),
        n == s.len() || !is_whitespace_char(s[n]),
    ensures
        lead_len(s) == n,
    decreases s.len(),
{
    if s.len() == 0 || !is_whitespace_char(s[0]) {
        if n > 0 {
            assert(is_whitespace_char(s[0]));
        }
    } else {
        assert forall|j: int| 0 <= j < n - 1 implies is_whitespace_char(s.skip(1)[j]) by {
            assert(s.skip(1)[j] == s[j + 1]);
        }
        if n - 1 < s.skip(1).len() {
            assert(s.skip(1)[n - 1] == s[n]);
        }
        lemma_lead_found(s.skip(1), n - 1);
    }
}

/// A run of white space up to the end, which begins at the start of the text or after another character, is the trailing white space.
pub proof fn lemma_trail_found(s: Seq<char>, n: int)
    requires
        0 <= n <= s.len(),
        forall|j: int| s.len() - n <= j < s.len() ==> is_whitespace_char(s[j]),
        n == s.len() || !is_whitespace_char(s[s.len() - n - 1]),
    ensures
        trail_len(s) == n,
    decreases s.len(),
{
    if s.len() == 0 || !is_whitespace_char(s.last()) {
        if n > 0 {
            assert(is_whitespace_char(s[s.len() - 1]));
        }
    } else {
        let t = s.drop_last();
        assert forall|j: int| t.len() - (n - 1) <= j < t.len() implies is_whitespace_char(
            t[j],
        ) by {
            assert(t[j] == s[j]);
        }
        if n - 1 < t.len() {
            assert(t[t.len() - (n - 1) - 1] == s[s.len() - n - 1]);
        }
        lemma_trail_found(t, n - 1);
    }
}

/// The characters of a text without the white space at its two ends.
pub fn trim_chars(s: &str) -> (r: Vec<char>)
    ensures
        r@ == trimmed(s@),
{
    let v = chars_of(s);
    let n = v.len();
    let mut from: usize = 0;
    while from < n && v[from].is_whitespace()
        invariant
            from <= n,
            n == v.len(),
            forall|j: int| 0 <= j < from ==> is_whitespace_char(v@[j]),
        decreases n - from,
    {
        from += 1;
    }
    proof {
        lemma_lead_found(v@, from as int);
    }
    let mut r: Vec<char> = Vec::new();
    if from == n {
        return r;
    }
    let mut to: usize = n;
    while to > from && v[to - 1].is_whitespace()
        invariant
            from <= to <= n,
            n == v.len(),
            from < n,
            !is_whitespace_char(v@[from as int]),
            forall|j: int| to <= j < n ==> is_whitespace_char(v@[j]),
        decreases to,
    {
        to -= 1;
    }
    proof {
        lemma_trail_found(v@, n - to);
    }
    let mut i: usize = from;
    while i < to
        invariant
            from <= i <= to <= n,
            n == v.len(),
            r@ == v@.subrange(from as int, i as int),
        decreases to - i,
    {
        r.push(v[i]);
        assert(r@ =~= v@.subrange(from as int, i + 1));
        i += 1;
    }
    assert(v@.subrange(from as int, from as int) =~= Seq::<char>::empty());
    r
}

/// Whether the two texts are equal once ASCII letters are put in lower case.
pub open spec fn same_ignoring_ascii_case(a: Seq<char>, b: Seq<char>) -> bool {
    a.len() == b.len() && forall|i: int| 0 <= i < a.len() ==> ascii_lower(a[i]) == ascii_lower(b[i])
}

/// Whether the two texts are equal once ASCII letters are put in lower case.
pub fn eq_ignoring_ascii_case(a: &str, b: &str) -> (r: bool)
    ensures
        r == same_ignoring_ascii_case(a@, b@),
{
    let x = chars_of(a);
    let y = chars_of(b);
    if x.len() != y.len() {
        return false;
    }
    let mut i: usize = 0;
    while i < x.len()
        invariant
            i <= x.len(),
            x.len() == y.len(),
            x@ == a@,
            y@ == b@,
            forall|j: int| 0 <= j < i ==> ascii_lower(a@[j]) == ascii_lower(b@[j]),
        decreases x.len() - i,
    {
        if x[i].to_ascii_lowercase() != y[i].to_ascii_lowercase() {
            return false;
        }
        i += 1;
    }
    true
}

/// Whether `word` is one of `words`.
pub fn has_token(words: &Vec<String>, word: &str) -> (r: bool)
    ensures
        r == views(words@).contains(word@),
{
    let mut i: usize = 0;
    while i < words.len()
        invariant
            i <= words.len(),
            forall|j: int| 0 <= j < i ==> words[j]@ != word@,
        decreases words.len() - i,
    {
        if same_str(words[i].as_str(), word) {
            assert(views(words@)[i as int] == word@);
            return true;
        }
        i += 1;
    }
    assert forall|j: int| 0 <= j < views(words@).len() implies views(words@)[j] != word@ by {
        assert(views(words@)[j] == words[j]@);
    }
    false
}

} // verus!
