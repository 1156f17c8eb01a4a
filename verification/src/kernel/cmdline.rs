//! The kernel command line: flags and `key=value` words.
use vstd::prelude::*;
use vstd::slice::slice_subrange;
use vstd::string::*;

use crate::text;

verus! {

/// Longest command line kept; the boot loader's own limit is 4096 including the
/// NUL.
pub const CMDLINE_MAX: usize = 4096;

/// The part of the boot loader's command line that is kept.
pub fn keep(raw: &[u8]) -> (r: &[u8])
    ensures
        r@ == if raw@.len() < CMDLINE_MAX {
            raw@
        } else {
            raw@.take(CMDLINE_MAX - 1)
        },
{
    assert(raw.len() == raw@.len());
    let n: usize = if raw.len() < CMDLINE_MAX {
        raw.len()
    } else {
        CMDLINE_MAX - 1
    };
    let r: &[u8] = slice_subrange(raw, 0, n);
    assert(raw@.len() < CMDLINE_MAX ==> r@ =~= raw@);
    assert(raw@.len() >= CMDLINE_MAX ==> r@ =~= raw@.take(CMDLINE_MAX - 1));
    r
}

/// The command line as text; empty if it is none.
pub fn cmdline(kept: &[u8]) -> (r: &str)
    ensures
        r@ == match text::text_in(kept@) {
            Some(t) => t,
            None => Seq::empty(),
        },
{
    match text::text_of(kept) {
        Some(s) => s,
        None => {
            proof {
                reveal_strlit("");
            }
            assert(""@ =~= Seq::<char>::empty());
            ""
        },
    }
}

/// Whether a flag is among the words of the command line.
pub fn cmdline_has(line: &str, flag: &str) -> (r: bool)
    ensures
        r == text::words(line@).contains(flag@),
{
    let cs: Vec<char> = text::chars_of(line);
    let ws: Vec<&[char]> = text::words_of(cs.as_slice());
    let f: Vec<char> = text::chars_of(flag);
    let ghost want = text::words(line@);
    let mut i: usize = 0;
    while i < ws.len()
        invariant
            i <= ws@.len(),
            text::views(ws@) == want,
            f@ == flag@,
            want == text::words(line@),
            forall|k: int| 0 <= k < i ==> #[trigger] want[k] != flag@,
        decreases ws@.len() - i,
    {
        assert(want[i as int] == ws@[i as int]@);
        if text::same(ws[i], f.as_slice()) {
            assert(want[i as int] == flag@);
            return true;
        }
        i = i + 1;
    }
    false
}

/// Whether a word is `key=` and a value.
pub open spec fn has_key(word: Seq<char>, key: Seq<char>) -> bool {
    word.len() > key.len() && word.take(key.len() as int) == key && word[key.len() as int] == '='
}

/// The value of the first of these words, from number `i` on, that is for a key.
pub open spec fn value_in(words: Seq<Seq<char>>, key: Seq<char>, i: int) -> Option<Seq<char>>
    decreases words.len() - i,
{
    if i >= words.len() {
        None
    } else if has_key(words[i], key) {
        Some(words[i].subrange(key.len() as int + 1, words[i].len() as int))
    } else {
        value_in(words, key, i + 1)
    }
}

/// The value of `key=value` on the command line.
pub fn cmdline_value(line: &str, key: &str) -> (r: Option<String>)
    ensures
        match value_in(text::words(line@), key@, 0) {
            Some(v) => r matches Some(s) && s@ == v,
            None => r is None,
        },
{
    let cs: Vec<char> = text::chars_of(line);
    let ws: Vec<&[char]> = text::words_of(cs.as_slice());
    let k: Vec<char> = text::chars_of(key);
    let ghost all = text::words(line@);
    let mut i: usize = 0;
    while i < ws.len()
        invariant
            i <= ws@.len(),
            text::views(ws@) == all,
            k@ == key@,
            all == text::words(line@),
            value_in(all, key@, 0) == value_in(all, key@, i as int),
        decreases ws@.len() - i,
    {
        let w: &[char] = ws[i];
        assert(all[i as int] == w@);
        assert(w.len() == w@.len());
        let n: usize = k.len();
        if w.len() > n && w[n] == '=' {
            let head: &[char] = slice_subrange(w, 0, n);
            assert(head@ =~= w@.take(n as int));
            if text::same(head, k.as_slice()) {
                return Some(text::string_of(slice_subrange(w, n + 1, w.len())));
            }
        }
        i = i + 1;
    }
    None
}

/// `key=value` as a number, if it is one.
pub fn cmdline_u64(line: &str, key: &str) -> (r: Option<u64>)
    ensures
        match value_in(text::words(line@), key@, 0) {
            Some(v) => match text::number(v, u64::MAX as int) {
                Some(n) => r matches Some(m) && m == n,
                None => r is None,
            },
            None => r is None,
        },
{
    match cmdline_value(line, key) {
        None => None,
        Some(v) => {
            let cs: Vec<char> = text::chars_of(v.as_str());
            text::parse_number(cs.as_slice(), u64::MAX)
        },
    }
}

/// The value of a word `key=value` is all that follows the first `=`, also if that
/// holds another one, and the first word of a key counts.
pub proof fn lemma_key_value(words: Seq<Seq<char>>, key: Seq<char>, value: Seq<char>, i: int, j: int)
    requires
        0 <= i <= j < words.len(),
        words[j] == key + seq!['='] + value,
        forall|k: int, v: Seq<char>| i <= k < j ==> #[trigger] words[k] != #[trigger] (key + seq!['='] + v),
    ensures
        value_in(words, key, i) == Some(value),
    decreases j - i,
{
    if i == j {
        let w = words[j];
        assert(w.take(key.len() as int) =~= key);
        assert(w.subrange(key.len() as int + 1, w.len() as int) =~= value);
    } else {
        let w = words[i];
        if has_key(w, key) {
            let v = w.subrange(key.len() as int + 1, w.len() as int);
            assert(w =~= key + seq!['='] + v) by {
                assert forall|k: int| 0 <= k < key.len() implies w[k] == key[k] by {
                    assert(w.take(key.len() as int)[k] == w[k]);
                }
            }
            assert(false);
        }
        lemma_key_value(words, key, value, i + 1, j);
    }
}

/// A key that no word starts with, up to an `=`, has no value.
pub proof fn lemma_no_value(words: Seq<Seq<char>>, key: Seq<char>, i: int)
    requires
        0 <= i <= words.len(),
        forall|k: int, v: Seq<char>|
            i <= k < words.len() ==> #[trigger] words[k] != #[trigger] (key + seq!['='] + v),
    ensures
        value_in(words, key, i) is None,
    decreases words.len() - i,
{
    if i < words.len() {
        let w = words[i];
        if has_key(w, key) {
            let v = w.subrange(key.len() as int + 1, w.len() as int);
            assert(w =~= key + seq!['='] + v) by {
                assert forall|k: int| 0 <= k < key.len() implies w[k] == key[k] by {
                    assert(w.take(key.len() as int)[k] == w[k]);
                }
            }
            assert(false);
        }
        lemma_no_value(words, key, i + 1);
    }
}

} // verus!
