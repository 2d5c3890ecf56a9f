use vstd::prelude::*;
use vstd::slice::slice_subrange;
use crate::trie::Trie;

verus! {

/// `s` splits into consecutive pieces, each a word of `dict`: either `s` is
/// empty, or it starts with a word of `dict` and what follows splits too.
pub open spec fn segmentable(s: Seq<char>, dict: Set<Seq<char>>) -> bool
    decreases s.len(),
{
    if s.len() == 0 {
        true
    } else {
        exists|k: int|
            0 < k <= s.len() && dict.contains(#[trigger] s.subrange(0, k)) && segmentable(
                s.subrange(k, s.len() as int),
                dict,
            )
    }
}

/// The set of words in a word list, as character sequences.
pub open spec fn dict_of(words: Seq<&str>) -> Set<Seq<char>> {
    Set::new(|w: Seq<char>| exists|i: int| 0 <= i < words.len() && #[trigger] words[i]@ == w)
}

/// The suffix of `s` from position `i`.
pub open spec fn suffix_from(s: Seq<char>, i: int) -> Seq<char> {
    s.subrange(i, s.len() as int)
}

/// Every resolved slot of `memo` holds whether the suffix at its position splits.
pub open spec fn memo_sound(memo: Seq<Option<bool>>, s: Seq<char>, dict: Set<Seq<char>>) -> bool {
    &&& memo.len() == s.len() + 1
    &&& forall|i: int|
        0 <= i < memo.len() && #[trigger] memo[i] is Some ==> memo[i]->0 == segmentable(
            suffix_from(s, i),
            dict,
        )
}

proof fn lemma_suffix_parts(s: Seq<char>, start: int, e: int)
    requires
        0 <= start < e <= s.len(),
    ensures
        suffix_from(s, start).subrange(0, e - start) == s.subrange(start, e),
        suffix_from(s, start).subrange(e - start, s.len() - start) == suffix_from(s, e),
{
    assert(suffix_from(s, start).subrange(0, e - start) =~= s.subrange(start, e));
    assert(suffix_from(s, start).subrange(e - start, s.len() - start) =~= suffix_from(s, e));
}

fn chars_of(s: &str) -> (r: Vec<char>)
    ensures
        r@ == s@,
{
    let n = s.unicode_len();
    let mut r: Vec<char> = Vec::new();
    let mut i: usize = 0;
    while i < n
        invariant
            n == s@.len(),
            i <= n,
            r@ == s@.subrange(0, i as int),
        decreases n - i,
    {
        r.push(s.get_char(i));
        i += 1;
        assert(r@ =~= s@.subrange(0, i as int));
    }
    assert(r@ =~= s@);
    r
}

/// Whether the suffix of `s` from `start` splits into words of the trie,
/// consulting and filling `memo`. The answer does not depend on what `memo`
/// held, as long as each resolved slot was right.
fn search(trie: &Trie<bool>, s: &[char], start: usize, memo: &mut Vec<Option<bool>>) -> (r: bool)
    requires
        start <= s@.len(),
        memo_sound(old(memo)@, s@, trie@.dom()),
    ensures
        r == segmentable(suffix_from(s@, start as int), trie@.dom()),
        memo_sound(final(memo)@, s@, trie@.dom()),
    decreases s@.len() - start,
{
    let ghost dict = trie@.dom();
    let n = s.len();
    if start == n {
        return true;
    }
    if let Some(res) = memo[start] {
        return res;
    }
    let mut last: usize = start;
    while last < n
        invariant
            n == s@.len(),
            start <= last <= n,
            dict == trie@.dom(),
            memo_sound(memo@, s@, dict),
            forall|e: int|
                start < e <= last ==> !(dict.contains(s@.subrange(start as int, e)) && segmentable(
                    #[trigger] suffix_from(s@, e),
                    dict,
                )),
        decreases n - last,
    {
        let end = last + 1;
        let word = slice_subrange(s, start, end);
        if trie.get(word).is_some() && search(trie, s, end, memo) {
            proof {
                lemma_suffix_parts(s@, start as int, end as int);
                let k = end - start;
                assert(suffix_from(s@, start as int).subrange(0, k) == word@);
            }
            memo.set(start, Some(true));
            return true;
        }
        last = end;
    }
    proof {
        let t = suffix_from(s@, start as int);
        assert forall|k: int| 0 < k <= t.len() implies !(dict.contains(#[trigger] t.subrange(0, k))
            && segmentable(t.subrange(k, t.len() as int), dict)) by {
            lemma_suffix_parts(s@, start as int, start + k);
            assert(t.len() == s@.len() - start);
        }
    }
    memo.set(start, Some(false));
    false
}

/// Whether `s` splits into a sequence of words of `word_dict`, every
/// character used once and in order. The empty string always splits.
pub fn word_break(s: &str, word_dict: &[&str]) -> (r: bool)
    ensures
        r == segmentable(s@, dict_of(word_dict@)),
{
    let mut trie: Trie<bool> = Trie::new();
    let mut i: usize = 0;
    while i < word_dict.len()
        invariant
            i <= word_dict@.len(),
            forall|w: Seq<char>|
                #[trigger] trie@.contains_key(w) <==> exists|j: int|
                    0 <= j < i && #[trigger] word_dict@[j]@ == w,
        decreases word_dict@.len() - i,
    {
        let word = chars_of(word_dict[i]);
        trie.insert(word.as_slice(), true);
        proof {
            assert forall|w: Seq<char>|
                #[trigger] trie@.contains_key(w) <==> exists|j: int|
                    0 <= j < i + 1 && #[trigger] word_dict@[j]@ == w by {
                if w == word@ {
                    assert(word_dict@[i as int]@ == w);
                }
            }
        }
        i += 1;
    }
    assert(trie@.dom() =~= dict_of(word_dict@));
    let chars = chars_of(s);
    let n = chars.len();
    let mut memo: Vec<Option<bool>> = Vec::new();
    while memo.len() <= n
        invariant
            n == chars@.len(),
            memo@.len() <= n + 1,
            forall|j: int| 0 <= j < memo@.len() ==> #[trigger] memo@[j] is None,
        decreases n + 1 - memo@.len(),
    {
        memo.push(None);
    }
    let r = search(&trie, chars.as_slice(), 0, &mut memo);
    assert(suffix_from(chars@, 0) =~= s@);
    r
}

/// The empty string splits, whatever the dictionary, the empty one included.
pub proof fn lemma_empty_string_splits(dict: Set<Seq<char>>)
    ensures
        segmentable(Seq::<char>::empty(), dict),
{
}

/// With an empty dictionary no non-empty string splits.
pub proof fn lemma_empty_dictionary(s: Seq<char>)
    requires
        s.len() > 0,
    ensures
        !segmentable(s, Set::<Seq<char>>::empty()),
{
}

/// A word of the dictionary splits, as itself.
pub proof fn lemma_single_word(w: Seq<char>, dict: Set<Seq<char>>)
    requires
        dict.contains(w),
    ensures
        segmentable(w, dict),
{
    if w.len() > 0 {
        assert(w.subrange(0, w.len() as int) =~= w);
        assert(segmentable(w.subrange(w.len() as int, w.len() as int), dict));
    }
}

/// A string that splits over a dictionary still splits over any larger one.
pub proof fn lemma_monotone(s: Seq<char>, dict: Set<Seq<char>>, larger: Set<Seq<char>>)
    requires
        dict.subset_of(larger),
        segmentable(s, dict),
    ensures
        segmentable(s, larger),
    decreases s.len(),
{
    if s.len() > 0 {
        let k = choose|k: int|
            0 < k <= s.len() && dict.contains(#[trigger] s.subrange(0, k)) && segmentable(
                s.subrange(k, s.len() as int),
                dict,
            );
        lemma_monotone(s.subrange(k, s.len() as int), dict, larger);
        assert(larger.contains(s.subrange(0, k)));
    }
}

} // verus!
