use vstd::prelude::*;

verus! {

/// Why two strings could not be compared as anagrams.
#[derive(Debug, PartialEq, Eq, Structural)]
pub enum AnagramError {
    NonAlphabeticCharacter,
}

/// The characters with the Unicode White_Space property.
pub open spec fn white_space(c: char) -> bool {
    let u = c as u32;
    (0x09 <= u <= 0x0d) || u == 0x20 || u == 0x85 || u == 0xa0 || u == 0x1680 || (0x2000 <= u
        <= 0x200a) || u == 0x2028 || u == 0x2029 || u == 0x202f || u == 0x205f || u == 0x3000
}

/// Whether a character has the Unicode Alphabetic property.
pub uninterp spec fn alphabetic(c: char) -> bool;

/// `c` with an ASCII capital letter turned into its small letter.
pub open spec fn ascii_lower(c: char) -> char {
    if 'A' <= c <= 'Z' {
        ((c as u32) + 32) as char
    } else {
        c
    }
}

/// Relies on char::is_whitespace: true exactly for White_Space characters.
#[verifier::external_body]
fn is_space(c: char) -> (r: bool)
    ensures
        r == white_space(c),
{
    c.is_whitespace()
}

/// Relies on char::is_alphabetic: the answer depends on the character alone.
#[verifier::external_body]
fn is_letter(c: char) -> (r: bool)
    ensures
        r == alphabetic(c),
{
    c.is_alphabetic()
}

/// Relies on char::to_ascii_lowercase: maps 'A'..='Z' to 'a'..='z', keeps the rest.
#[verifier::external_body]
fn lower(c: char) -> (r: char)
    ensures
        r == ascii_lower(c),
{
    c.to_ascii_lowercase()
}

/// Every character of `s` that is not white space is alphabetic.
pub open spec fn letters_only(s: Seq<char>) -> bool {
    forall|i: int| 0 <= i < s.len() && !white_space(#[trigger] s[i]) ==> alphabetic(s[i])
}

/// `s` without its white space, with ASCII capitals made small.
pub open spec fn cleaned(s: Seq<char>) -> Seq<char>
    decreases s.len(),
{
    if s.len() == 0 {
        Seq::empty()
    } else if white_space(s.last()) {
        cleaned(s.drop_last())
    } else {
        cleaned(s.drop_last()).push(ascii_lower(s.last()))
    }
}

/// How many times `c` occurs in `s`.
pub open spec fn count(s: Seq<char>, c: char) -> nat
    decreases s.len(),
{
    if s.len() == 0 {
        0
    } else {
        count(s.drop_last(), c) + if s.last() == c {
            1nat
        } else {
            0nat
        }
    }
}

/// `a` and `b` hold the same characters, each as many times.
pub open spec fn same_counts(a: Seq<char>, b: Seq<char>) -> bool {
    forall|c: char| #[trigger] count(a, c) == count(b, c)
}

/// What comparing `s` and `t` as anagrams gives.
pub open spec fn anagram_result(s: Seq<char>, t: Seq<char>) -> Result<bool, AnagramError> {
    if letters_only(s) && letters_only(t) {
        Ok(same_counts(cleaned(s), cleaned(t)))
    } else {
        Err(AnagramError::NonAlphabeticCharacter)
    }
}

proof fn lemma_count_bound(s: Seq<char>, c: char)
    ensures
        count(s, c) <= s.len(),
        count(s, c) > 0 ==> s.contains(c),
    decreases s.len(),
{
    if s.len() > 0 {
        lemma_count_bound(s.drop_last(), c);
        if count(s.drop_last(), c) > 0 {
            let i = choose|i: int| 0 <= i < s.drop_last().len() && s.drop_last()[i] == c;
            assert(s[i] == c);
        }
        if s.last() == c {
            assert(s[s.len() - 1] == c);
        }
    }
}

fn clean_string(s: &str) -> (r: Result<Vec<char>, AnagramError>)
    ensures
        match r {
            Ok(v) => letters_only(s@) && v@ == cleaned(s@),
            Err(e) => !letters_only(s@) && e == AnagramError::NonAlphabeticCharacter,
        },
{
    let n = s.unicode_len();
    let mut out: Vec<char> = Vec::new();
    let mut i: usize = 0;
    while i < n
        invariant
            n == s@.len(),
            i <= n,
            letters_only(s@.subrange(0, i as int)),
            out@ == cleaned(s@.subrange(0, i as int)),
        decreases n - i,
    {
        let c = s.get_char(i);
        let ghost pre = s@.subrange(0, i as int);
        let ghost next = s@.subrange(0, i + 1);
        proof {
            assert(next.drop_last() =~= pre);
            assert(next.last() == c);
        }
        if !is_space(c) {
            if !is_letter(c) {
                assert(!letters_only(s@)) by {
                    assert(s@[i as int] == c);
                }
                return Err(AnagramError::NonAlphabeticCharacter);
            }
            out.push(lower(c));
        }
        proof {
            assert forall|j: int| 0 <= j < next.len() && !white_space(#[trigger] next[j]) implies alphabetic(
                next[j],
            ) by {
                if j < i {
                    assert(next[j] == pre[j]);
                }
            }
        }
        i += 1;
    }
    assert(s@.subrange(0, n as int) =~= s@);
    Ok(out)
}

/// How many times `c` occurs in `s`.
fn count_of(s: &Vec<char>, c: char) -> (r: usize)
    ensures
        r == count(s@, c),
{
    let mut r: usize = 0;
    let mut i: usize = 0;
    while i < s.len()
        invariant
            i <= s@.len(),
            r == count(s@.subrange(0, i as int), c),
        decreases s@.len() - i,
    {
        proof {
            assert(s@.subrange(0, i + 1).drop_last() =~= s@.subrange(0, i as int));
            lemma_count_bound(s@.subrange(0, i as int), c);
        }
        if s[i] == c {
            r += 1;
        }
        i += 1;
    }
    assert(s@.subrange(0, s@.len() as int) =~= s@);
    r
}

/// Whether `a` and `b` hold the same characters, each as many times.
pub fn same_char_counts(a: &Vec<char>, b: &Vec<char>) -> (r: bool)
    ensures
        r == same_counts(a@, b@),
{
    let mut i: usize = 0;
    while i < a.len()
        invariant
            i <= a@.len(),
            forall|j: int| 0 <= j < i ==> count(a@, #[trigger] a@[j]) == count(b@, a@[j]),
        decreases a@.len() - i,
    {
        if count_of(a, a[i]) != count_of(b, a[i]) {
            return false;
        }
        i += 1;
    }
    let mut i: usize = 0;
    while i < b.len()
        invariant
            i <= b@.len(),
            forall|j: int| 0 <= j < a@.len() ==> count(a@, #[trigger] a@[j]) == count(b@, a@[j]),
            forall|j: int| 0 <= j < i ==> count(a@, #[trigger] b@[j]) == count(b@, b@[j]),
        decreases b@.len() - i,
    {
        if count_of(a, b[i]) != count_of(b, b[i]) {
            return false;
        }
        i += 1;
    }
    proof {
        assert forall|c: char| #[trigger] count(a@, c) == count(b@, c) by {
            lemma_count_bound(a@, c);
            lemma_count_bound(b@, c);
            if count(a@, c) > 0 {
                let j = choose|j: int| 0 <= j < a@.len() && a@[j] == c;
                assert(count(a@, a@[j]) == count(b@, a@[j]));
            } else if count(b@, c) > 0 {
                let j = choose|j: int| 0 <= j < b@.len() && b@[j] == c;
                assert(count(a@, b@[j]) == count(b@, b@[j]));
            }
        }
    }
    true
}

/// Whether `s` and `t` are anagrams of each other, white space left out and
/// ASCII case ignored. A character that is neither white space nor
/// alphabetic, in either string, is an error.
pub fn check_anagram(s: &str, t: &str) -> (r: Result<bool, AnagramError>)
    ensures
        r == anagram_result(s@, t@),
{
    let s_cleaned = match clean_string(s) {
        Ok(v) => v,
        Err(e) => return Err(e),
    };
    let t_cleaned = match clean_string(t) {
        Ok(v) => v,
        Err(e) => return Err(e),
    };
    Ok(same_char_counts(&s_cleaned, &t_cleaned))
}

} // verus!
