//! Characters and words: lowercasing, tokenizing and phrase search.
use vstd::prelude::*;

verus! {

/// What `str::to_lowercase` makes of a sequence of characters.
pub uninterp spec fn lower_of(s: Seq<char>) -> Seq<char>;

/// Whether a character has the Unicode `White_Space` property.
pub open spec fn whitespace_of(c: char) -> bool {
    let u = c as u32;
    (0x09 <= u && u <= 0x0D) || u == 0x20 || u == 0x85 || u == 0xA0 || u == 0x1680 || (0x2000
        <= u && u <= 0x200A) || u == 0x2028 || u == 0x2029 || u == 0x202F || u == 0x205F || u
        == 0x3000
}

/// Whether a character is alphabetic or numeric in Unicode's sense.
pub uninterp spec fn alphanumeric_of(c: char) -> bool;

/// Number of bytes of `c` in UTF-8.
pub open spec fn char_width(c: char) -> nat {
    if (c as u32) < 0x80 {
        1
    } else if (c as u32) < 0x800 {
        2
    } else if (c as u32) < 0x10000 {
        3
    } else {
        4
    }
}

/// Number of bytes of `s` in UTF-8.
pub open spec fn utf8_len(s: Seq<char>) -> nat
    decreases s.len(),
{
    if s.len() == 0 {
        0
    } else {
        utf8_len(s.drop_last()) + char_width(s.last())
    }
}

/// Appends the cleaned word `cur` to `toks` when it is long enough.
pub open spec fn close_word(toks: Seq<Seq<char>>, cur: Seq<char>, min_len: nat) -> Seq<Seq<char>> {
    if utf8_len(cur) >= min_len {
        toks.push(cur)
    } else {
        toks
    }
}

/// The state of a left-to-right scan of `s`: the tokens completed so far, the
/// alphanumeric characters of the word being read, and whether a word is being read.
pub open spec fn scan(s: Seq<char>, min_len: nat) -> (Seq<Seq<char>>, Seq<char>, bool)
    decreases s.len(),
{
    if s.len() == 0 {
        (Seq::empty(), Seq::empty(), false)
    } else {
        let prev = scan(s.drop_last(), min_len);
        let c = s.last();
        if whitespace_of(c) {
            (
                if prev.2 {
                    close_word(prev.0, prev.1, min_len)
                } else {
                    prev.0
                },
                Seq::empty(),
                false,
            )
        } else if alphanumeric_of(c) {
            (prev.0, prev.1.push(c), true)
        } else {
            (prev.0, prev.1, true)
        }
    }
}

/// The tokens of an already lowercased text: its whitespace-separated words, each
/// stripped of every character that is not alphanumeric, kept when the stripped word
/// has at least `min_len` bytes.
pub open spec fn tokens_of(s: Seq<char>, min_len: nat) -> Seq<Seq<char>> {
    let st = scan(s, min_len);
    if st.2 {
        close_word(st.0, st.1, min_len)
    } else {
        st.0
    }
}

/// The tokens of a message's content.
pub open spec fn content_tokens(content: Seq<char>, min_len: nat) -> Seq<Seq<char>> {
    tokens_of(lower_of(content), min_len)
}

/// `t` is a clean token drawn from `s`: alphanumeric characters of `s` only, and at
/// least `min_len` bytes long.
pub open spec fn clean_token(t: Seq<char>, s: Seq<char>, min_len: nat) -> bool {
    &&& utf8_len(t) >= min_len
    &&& forall|j: int| 0 <= j < t.len() ==> alphanumeric_of(#[trigger] t[j]) && s.contains(t[j])
}

proof fn lemma_scan_clean(s: Seq<char>, min_len: nat)
    ensures
        forall|i: int|
            0 <= i < scan(s, min_len).0.len() ==> clean_token(
                #[trigger] scan(s, min_len).0[i],
                s,
                min_len,
            ),
        forall|j: int|
            0 <= j < scan(s, min_len).1.len() ==> alphanumeric_of(#[trigger] scan(s, min_len).1[j])
                && s.contains(scan(s, min_len).1[j]),
    decreases s.len(),
{
    if s.len() > 0 {
        let d = s.drop_last();
        lemma_scan_clean(d, min_len);
        let prev = scan(d, min_len);
        assert forall|x: char| d.contains(x) implies s.contains(x) by {
            let k = choose|k: int| 0 <= k < d.len() && d[k] == x;
            assert(s[k] == x);
        }
        assert(s.contains(s.last())) by {
            assert(s[s.len() - 1] == s.last());
        }
        assert forall|i: int| 0 <= i < prev.0.len() implies clean_token(#[trigger] prev.0[i], s, min_len) by {
            assert(clean_token(prev.0[i], d, min_len));
        }
        assert forall|j: int| 0 <= j < prev.1.len() implies s.contains(#[trigger] prev.1[j]) by {
            assert(d.contains(prev.1[j]));
        }
        if !whitespace_of(s.last()) && alphanumeric_of(s.last()) {
            let cur2 = prev.1.push(s.last());
            assert forall|j: int| 0 <= j < cur2.len() implies alphanumeric_of(#[trigger] cur2[j])
                && s.contains(cur2[j]) by {
                if j < prev.1.len() {
                    assert(cur2[j] == prev.1[j]);
                }
            }
        }
    }
}

/// Every token of a content is made of alphanumeric characters of the lowercased content,
/// and has at least `min_len` bytes.
pub proof fn lemma_tokens_clean(content: Seq<char>, min_len: nat)
    ensures
        forall|i: int|
            0 <= i < content_tokens(content, min_len).len() ==> clean_token(
                #[trigger] content_tokens(content, min_len)[i],
                lower_of(content),
                min_len,
            ),
{
    let s = lower_of(content);
    lemma_scan_clean(s, min_len);
    let st = scan(s, min_len);
    if st.2 && utf8_len(st.1) >= min_len {
        let r = st.0.push(st.1);
        assert forall|i: int| 0 <= i < r.len() implies clean_token(#[trigger] r[i], s, min_len) by {
            if i < st.0.len() {
                assert(r[i] == st.0[i]);
            }
        }
    }
}

/// Relies on `str::to_lowercase`, which maps each character to its Unicode lowercase
/// form (with the context rule for final sigma); the result depends on the text alone.
#[verifier::external_body]
pub(crate) fn lowercase(s: &str) -> (r: String)
    ensures
        r@ == lower_of(s@),
{
    s.to_lowercase()
}

/// Relies on `char::is_whitespace`: the Unicode `White_Space` property, which is also
/// what `str::split_whitespace` splits on.
#[verifier::external_body]
fn is_space(c: char) -> (r: bool)
    ensures
        r == whitespace_of(c),
{
    c.is_whitespace()
}

/// Relies on `char::is_alphanumeric`.
#[verifier::external_body]
fn is_alnum(c: char) -> (r: bool)
    ensures
        r == alphanumeric_of(c),
{
    c.is_alphanumeric()
}

/// Relies on `str::chars`: the characters of `s` in order.
#[verifier::external_body]
pub(crate) fn chars_of(s: &str) -> (r: Vec<char>)
    ensures
        r@ == s@,
{
    s.chars().collect()
}

/// Relies on `String`'s `FromIterator<char>`: the characters in order.
#[verifier::external_body]
pub(crate) fn string_of(cs: &Vec<char>) -> (r: String)
    ensures
        r@ == cs@,
{
    cs.iter().collect()
}

/// Number of bytes of `c` in UTF-8, as `char::len_utf8` gives it.
fn char_width_of(c: char) -> (r: usize)
    ensures
        r == char_width(c),
{
    let u = c as u32;
    if u < 0x80 {
        1
    } else if u < 0x800 {
        2
    } else if u < 0x10000 {
        3
    } else {
        4
    }
}

/// Splits an already lowercased text into word tokens: runs of whitespace separate
/// words, every non-alphanumeric character is removed from each word, and a cleaned word
/// is kept when it has at least `min_len` bytes. Tokens keep the order of their words.
pub fn tokenize_lowered(lowered: &str, min_len: usize) -> (r: Vec<String>)
    ensures
        r.deep_view() == tokens_of(lowered@, min_len as nat),
{
    let cs = chars_of(lowered);
    let ghost s = cs@;
    let mut toks: Vec<String> = Vec::new();
    let mut cur: Vec<char> = Vec::new();
    let mut cur_bytes: usize = 0;
    let mut open = false;
    let mut i: usize = 0;
    while i < cs.len()
        invariant
            s == cs@,
            s == lowered@,
            i <= s.len(),
            toks.deep_view() == scan(s.take(i as int), min_len as nat).0,
            cur@ == scan(s.take(i as int), min_len as nat).1,
            open == scan(s.take(i as int), min_len as nat).2,
            cur_bytes as nat == if utf8_len(cur@) < min_len as nat {
                utf8_len(cur@)
            } else {
                min_len as nat
            },
        decreases s.len() - i,
    {
        let c = cs[i];
        proof {
            assert(s.take(i + 1).drop_last() =~= s.take(i as int));
        }
        if is_space(c) {
            if open && cur_bytes >= min_len {
                let w = string_of(&cur);
                let ghost before = toks.deep_view();
                toks.push(w);
                assert(toks.deep_view() =~= before.push(cur@));
            }
            cur = Vec::new();
            cur_bytes = 0;
            open = false;
        } else {
            if is_alnum(c) {
                let width = char_width_of(c);
                let ghost prev = cur@;
                cur.push(c);
                assert(cur@.drop_last() =~= prev);
                if min_len - cur_bytes <= width {
                    cur_bytes = min_len;
                } else {
                    cur_bytes = cur_bytes + width;
                }
            }
            open = true;
        }
        i = i + 1;
    }
    assert(s.take(s.len() as int) =~= s);
    if open && cur_bytes >= min_len {
        let w = string_of(&cur);
        let ghost before = toks.deep_view();
        toks.push(w);
        assert(toks.deep_view() =~= before.push(cur@));
    }
    toks
}

/// Splits a message's content into word tokens: the content is lowercased, then split
/// as `tokenize_lowered` does.
pub fn tokenize_content(content: &str, min_len: usize) -> (r: Vec<String>)
    ensures
        r.deep_view() == content_tokens(content@, min_len as nat),
{
    let lowered = lowercase(content);
    tokenize_lowered(lowered.as_str(), min_len)
}

/// Whether `needle` occurs in `hay` as a contiguous run of characters.
pub open spec fn has_phrase(hay: Seq<char>, needle: Seq<char>) -> bool {
    exists|k: int|
        0 <= k && k + needle.len() <= hay.len() && #[trigger] hay.subrange(k, k + needle.len())
            == needle
}

/// Whether `needle` occurs in `hay` at position `k`.
fn occurs_at(hay: &Vec<char>, needle: &Vec<char>, k: usize) -> (r: bool)
    requires
        k + needle@.len() <= hay@.len(),
    ensures
        r == (hay@.subrange(k as int, k + needle@.len()) == needle@),
{
    let n = hay.len();
    let mut j: usize = 0;
    while j < needle.len()
        invariant
            n == hay@.len(),
            k + needle@.len() <= hay@.len(),
            j <= needle@.len(),
            forall|t: int| 0 <= t < j ==> hay@[k + t] == needle@[t],
        decreases needle@.len() - j,
    {
        if hay[k + j] != needle[j] {
            assert(hay@.subrange(k as int, k + needle@.len())[j as int] != needle@[j as int]);
            return false;
        }
        j = j + 1;
    }
    assert(hay@.subrange(k as int, k + needle@.len()) =~= needle@);
    true
}

/// Substring search: whether `needle` occurs in `hay`.
pub fn contains_phrase(hay: &Vec<char>, needle: &Vec<char>) -> (r: bool)
    ensures
        r == has_phrase(hay@, needle@),
{
    if needle.len() > hay.len() {
        return false;
    }
    let last = hay.len() - needle.len();
    let mut k: usize = 0;
    loop
        invariant
            last == hay@.len() - needle@.len(),
            k <= last,
            forall|t: int|
                0 <= t < k ==> #[trigger] hay@.subrange(t, t + needle@.len()) != needle@,
        decreases last - k,
    {
        if occurs_at(hay, needle, k) {
            return true;
        }
        if k == last {
            return false;
        }
        k = k + 1;
    }
}

} // verus!
