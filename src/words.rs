//! Counting whitespace-separated words.
use vstd::prelude::*;
use vstd::std_specs::iter::IteratorSpec;

verus! {

broadcast use vstd::string::axiom_spec_iter, vstd::string::next_postcondition;

/// The characters with the Unicode `White_Space` property.
pub open spec fn is_ws(c: char) -> bool {
    let n = c as u32;
    (0x09 <= n <= 0x0d) || n == 0x20 || n == 0x85 || n == 0xa0 || n == 0x1680 || (0x2000 <= n
        <= 0x200a) || n == 0x2028 || n == 0x2029 || n == 0x202f || n == 0x205f || n == 0x3000
}

/// Whether position `i` of `s` begins a word: it is not whitespace and follows
/// whitespace or the start of the text.
pub open spec fn starts_word(s: Seq<char>, i: int) -> bool {
    !is_ws(s[i]) && (i == 0 || is_ws(s[i - 1]))
}

/// The number of maximal runs of non-whitespace characters in `s`.
pub open spec fn word_count(s: Seq<char>) -> nat
    decreases s.len(),
{
    if s.len() == 0 {
        0
    } else {
        word_count(s.drop_last()) + if starts_word(s, s.len() - 1) {
            1nat
        } else {
            0nat
        }
    }
}

/// The number of words over all the texts.
pub open spec fn total_words(texts: Seq<String>) -> nat
    decreases texts.len(),
{
    if texts.len() == 0 {
        0
    } else {
        total_words(texts.drop_last()) + word_count(texts.last()@)
    }
}

/// Whether `c` is whitespace.
pub fn is_space(c: char) -> (r: bool)
    ensures
        r == is_ws(c),
{
    let n = c as u32;
    (0x09 <= n && n <= 0x0d) || n == 0x20 || n == 0x85 || n == 0xa0 || n == 0x1680 || (0x2000 <= n
        && n <= 0x200a) || n == 0x2028 || n == 0x2029 || n == 0x202f || n == 0x205f || n == 0x3000
}

pub proof fn lemma_word_count_prefix(s: Seq<char>, k: int)
    requires
        0 <= k < s.len(),
    ensures
        word_count(s.take(k + 1)) == word_count(s.take(k)) + if starts_word(s, k) {
            1nat
        } else {
            0nat
        },
{
    let p = s.take(k + 1);
    assert(p.drop_last() =~= s.take(k));
    assert(starts_word(p, k) == starts_word(s, k));
}

/// The number of words in `text`, or `None` where it exceeds `u32::MAX`.
pub fn count_words(text: &str) -> (r: Option<u32>)
    ensures
        match r {
            Some(n) => n == word_count(text@),
            None => word_count(text@) > u32::MAX,
        },
{
    let mut it = text.chars();
    let ghost k: int = 0;
    let mut count: u32 = 0;
    let mut prev_ws = true;
    proof {
        assert(text@.take(0) =~= Seq::<char>::empty());
        assert(text@.skip(0) =~= text@);
    }
    loop
        invariant
            0 <= k <= text@.len(),
            it.obeys_prophetic_iter_laws(),
            it.remaining() == text@.skip(k),
            count == word_count(text@.take(k)),
            prev_ws == (k == 0 || is_ws(text@[k - 1])),
        decreases text@.len() - k,
    {
        let ghost before = it.remaining();
        match it.next() {
            None => {
                proof {
                    assert(text@.take(k) =~= text@);
                }
                return Some(count);
            },
            Some(c) => {
                proof {
                    assert(before.len() > 0);
                    assert(c == text@[k]);
                    lemma_word_count_prefix(text@, k);
                    assert(it.remaining() =~= text@.skip(k + 1));
                }
                let ws = is_space(c);
                if !ws && prev_ws {
                    if count == u32::MAX {
                        proof {
                            lemma_word_count_monotonic(text@, k + 1);
                        }
                        return None;
                    }
                    count = count + 1;
                }
                prev_ws = ws;
                proof {
                    k = k + 1;
                }
            },
        }
    }
}

pub proof fn lemma_word_count_monotonic(s: Seq<char>, k: int)
    requires
        0 <= k <= s.len(),
    ensures
        word_count(s.take(k)) <= word_count(s),
    decreases s.len() - k,
{
    if k < s.len() {
        lemma_word_count_prefix(s, k);
        lemma_word_count_monotonic(s, k + 1);
    } else {
        assert(s.take(k) =~= s);
    }
}

/// The number of words over all `texts`, or `None` where it exceeds `u32::MAX`.
pub fn count_all_words(texts: &[String]) -> (r: Option<u32>)
    ensures
        match r {
            Some(n) => n == total_words(texts@),
            None => total_words(texts@) > u32::MAX,
        },
{
    let mut total: u32 = 0;
    let mut i: usize = 0;
    proof {
        assert(texts@.take(0) =~= Seq::<String>::empty());
    }
    while i < texts.len()
        invariant
            i <= texts@.len(),
            total == total_words(texts@.take(i as int)),
        decreases texts@.len() - i,
    {
        proof {
            assert(texts@.take(i + 1).drop_last() =~= texts@.take(i as int));
        }
        match count_words(texts[i].as_str()) {
            Some(n) => {
                if n > u32::MAX - total {
                    proof {
                        lemma_total_words_monotonic(texts@, i + 1);
                    }
                    return None;
                }
                total = total + n;
            },
            None => {
                proof {
                    lemma_total_words_monotonic(texts@, i + 1);
                }
                return None;
            },
        }
        i = i + 1;
    }
    proof {
        assert(texts@.take(i as int) =~= texts@);
    }
    Some(total)
}

pub proof fn lemma_total_words_monotonic(s: Seq<String>, k: int)
    requires
        0 <= k <= s.len(),
    ensures
        total_words(s.take(k)) <= total_words(s),
    decreases s.len() - k,
{
    if k < s.len() {
        assert(s.take(k + 1).drop_last() =~= s.take(k));
        lemma_total_words_monotonic(s, k + 1);
    } else {
        assert(s.take(k) =~= s);
    }
}

/// The number of whitespace-separated words over all `texts`.
pub fn word_counter(texts: &[String]) -> (r: u32)
    requires
        total_words(texts@) <= u32::MAX,
    ensures
        r == total_words(texts@),
{
    match count_all_words(texts) {
        Some(n) => n,
        None => 0,
    }
}

} // verus!
