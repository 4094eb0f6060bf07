//! Word-frequency tables: counting an author's tokens, and ranking the most common words.
use vstd::prelude::*;

use crate::message::Message;
use crate::order::{
    keys_ascending, lemma_lex_irreflexive, lemma_lex_total, lemma_lex_transitive, lex_lt, locate,
};
use crate::text::{chars_of, content_tokens, string_of, tokenize_content};

verus! {

/// A frequency table as (word, count) pairs.
pub open spec fn pairs_of(t: Seq<(String, usize)>) -> Seq<(Seq<char>, nat)> {
    t.map_values(|e: (String, usize)| (e.0@, e.1 as nat))
}

/// A working table keyed by character vectors, as (word, count) pairs.
pub open spec fn slots_of(t: Seq<(Vec<char>, usize)>) -> Seq<(Seq<char>, nat)> {
    t.map_values(|e: (Vec<char>, usize)| (e.0@, e.1 as nat))
}

/// The count that the pairs `m` give the word `w`: the sum of the counts of its entries.
pub open spec fn count_of(m: Seq<(Seq<char>, nat)>, w: Seq<char>) -> nat
    decreases m.len(),
{
    if m.len() == 0 {
        0
    } else {
        count_of(m.drop_last(), w) + if m.last().0 == w {
            m.last().1
        } else {
            0
        }
    }
}

/// The words of `m` rise strictly, so each word has at most one entry.
pub open spec fn ascending(m: Seq<(Seq<char>, nat)>) -> bool {
    forall|i: int, j: int| 0 <= i < j < m.len() ==> lex_lt(#[trigger] m[i].0, #[trigger] m[j].0)
}

/// Every entry of `m` has a positive count.
pub open spec fn positive(m: Seq<(Seq<char>, nat)>) -> bool {
    forall|i: int| 0 <= i < m.len() ==> (#[trigger] m[i]).1 > 0
}

/// How often `w` occurs in `toks`.
pub open spec fn occurrences(toks: Seq<Seq<char>>, w: Seq<char>) -> nat
    decreases toks.len(),
{
    if toks.len() == 0 {
        0
    } else {
        occurrences(toks.drop_last(), w) + if toks.last() == w {
            1nat
        } else {
            0
        }
    }
}

/// The tokens of all the messages of `msgs`, message after message.
pub open spec fn author_tokens(msgs: Seq<Message>, min_len: nat) -> Seq<Seq<char>>
    decreases msgs.len(),
{
    if msgs.len() == 0 {
        Seq::empty()
    } else {
        author_tokens(msgs.drop_last(), min_len) + content_tokens(msgs.last().content@, min_len)
    }
}

/// `m` is the frequency table of `toks`: one entry per distinct word, in ascending order
/// of words, each with the number of times the word occurs.
pub open spec fn is_table_of(m: Seq<(Seq<char>, nat)>, toks: Seq<Seq<char>>) -> bool {
    &&& ascending(m)
    &&& positive(m)
    &&& forall|w: Seq<char>| #[trigger] count_of(m, w) == occurrences(toks, w)
}

/// In a table with strictly rising words, the count of an entry's word is its count.
pub proof fn lemma_count_at(m: Seq<(Seq<char>, nat)>, p: int)
    requires
        ascending(m),
        0 <= p < m.len(),
    ensures
        count_of(m, m[p].0) == m[p].1,
    decreases m.len(),
{
    let w = m[p].0;
    let d = m.drop_last();
    if p == m.len() - 1 {
        assert forall|i: int| 0 <= i < d.len() implies #[trigger] d[i].0 != w by {
            assert(lex_lt(m[i].0, m[p].0));
            lemma_lex_irreflexive(w);
        }
        lemma_count_absent(d, w);
    } else {
        lemma_count_at(d, p);
        assert(d[p] == m[p]);
        assert(lex_lt(m[p].0, m.last().0));
        lemma_lex_irreflexive(w);
    }
}

/// A word with no entry has count zero.
pub proof fn lemma_count_absent(m: Seq<(Seq<char>, nat)>, w: Seq<char>)
    requires
        forall|i: int| 0 <= i < m.len() ==> (#[trigger] m[i]).0 != w,
    ensures
        count_of(m, w) == 0,
    decreases m.len(),
{
    if m.len() > 0 {
        let d = m.drop_last();
        assert forall|i: int| 0 <= i < d.len() implies (#[trigger] d[i]).0 != w by {
            assert(d[i] == m[i]);
        }
        lemma_count_absent(d, w);
    }
}

/// The count of `w` in an ascending table, read off its entries.
proof fn lemma_count_read(m: Seq<(Seq<char>, nat)>, w: Seq<char>)
    requires
        ascending(m),
    ensures
        (exists|i: int| 0 <= i < m.len() && m[i].0 == w) || count_of(m, w) == 0,
        forall|i: int| 0 <= i < m.len() && m[i].0 == w ==> count_of(m, w) == m[i].1,
{
    assert forall|i: int| 0 <= i < m.len() && m[i].0 == w implies count_of(m, w) == m[i].1 by {
        lemma_count_at(m, i);
    }
    if !(exists|i: int| 0 <= i < m.len() && m[i].0 == w) {
        lemma_count_absent(m, w);
    }
}

/// Counts every occurrence of every token in `toks`.
fn count_tokens(toks: &Vec<String>) -> (r: Vec<(Vec<char>, usize)>)
    ensures
        keys_ascending(r@),
        is_table_of(slots_of(r@), toks.deep_view()),
{
    let mut table: Vec<(Vec<char>, usize)> = Vec::new();
    let mut i: usize = 0;
    while i < toks.len()
        invariant
            i <= toks@.len(),
            keys_ascending(table@),
            is_table_of(slots_of(table@), toks.deep_view().take(i as int)),
            forall|j: int| 0 <= j < table@.len() ==> (#[trigger] table@[j]).1 <= i,
        decreases toks@.len() - i,
    {
        let key = chars_of(toks[i].as_str());
        let (p, found) = locate(&table, &key);
        let ghost old_table = table@;
        let ghost om = slots_of(old_table);
        let ghost pre = toks.deep_view().take(i as int);
        let ghost now = toks.deep_view().take(i + 1);
        proof {
            assert(now.drop_last() =~= pre);
            assert(now.last() == key@);
            assert forall|j: int| 0 <= j < om.len() implies #[trigger] om[j].0 == old_table[j].0@
                && om[j].1 == old_table[j].1 by {}
        }
        if found {
            let c = table[p].1;
            table[p].1 = c + 1;
        } else {
            table.insert(p, (key, 1));
        }
        proof {
            let nm = slots_of(table@);
            assert forall|a: int, b: int| 0 <= a < b < table@.len() implies lex_lt(
                #[trigger] table@[a].0@,
                #[trigger] table@[b].0@,
            ) by {
                if found {
                    assert(table@[a].0 == old_table[a].0 && table@[b].0 == old_table[b].0);
                } else if b < p {
                } else if b == p {
                } else if a < p {
                    lemma_lex_transitive(table@[a].0@, key@, table@[b].0@);
                } else if a == p {
                } else {
                    assert(table@[a] == old_table[a - 1] && table@[b] == old_table[b - 1]);
                }
            }
            assert forall|a: int, b: int| 0 <= a < b < nm.len() implies lex_lt(
                #[trigger] nm[a].0,
                #[trigger] nm[b].0,
            ) by {
                assert(nm[a].0 == table@[a].0@ && nm[b].0 == table@[b].0@);
            }
            assert forall|j: int| 0 <= j < nm.len() implies (#[trigger] nm[j]).1 > 0 && table@[j].1
                <= i + 1 by {
                if found {
                    if j != p {
                        assert(table@[j] == old_table[j]);
                        assert(om[j].1 > 0);
                    }
                } else if j < p {
                    assert(table@[j] == old_table[j]);
                    assert(om[j].1 > 0);
                } else if j > p {
                    assert(table@[j] == old_table[j - 1]);
                    assert(om[j - 1].1 > 0);
                }
            }
            assert forall|w: Seq<char>| #[trigger] count_of(nm, w) == occurrences(now, w) by {
                lemma_count_read(om, w);
                lemma_count_read(nm, w);
                if w == key@ {
                    if found {
                        assert(nm[p as int].0 == w);
                        assert(om[p as int].0 == w);
                    } else {
                        assert(nm[p as int].0 == w);
                        assert forall|j: int| 0 <= j < om.len() implies om[j].0 != w by {
                            assert(old_table[j].0@ != key@);
                        }
                    }
                } else {
                    if exists|j: int| 0 <= j < om.len() && om[j].0 == w {
                        let j = choose|j: int| 0 <= j < om.len() && om[j].0 == w;
                        if found {
                            assert(nm[j] == om[j]);
                        } else if j < p {
                            assert(nm[j] == om[j]);
                        } else {
                            assert(nm[j + 1] == om[j]);
                        }
                    } else {
                        assert forall|j: int| 0 <= j < nm.len() implies nm[j].0 != w by {
                            if found {
                                assert(nm[j].0 == om[j].0);
                            } else if j < p {
                                assert(nm[j] == om[j]);
                            } else if j > p {
                                assert(nm[j] == om[j - 1]);
                            }
                        }
                        lemma_count_absent(nm, w);
                    }
                }
            }
        }
        i = i + 1;
    }
    assert(toks.deep_view().take(toks@.len() as int) =~= toks.deep_view());
    table
}

/// Frequency table of the tokens of an author's messages: one entry per distinct token,
/// in ascending order of words, each with its number of occurrences over all messages.
pub fn word_frequency(msgs: &Vec<Message>, min_len: usize) -> (r: Vec<(String, usize)>)
    ensures
        is_table_of(pairs_of(r@), author_tokens(msgs@, min_len as nat)),
{
    let mut all: Vec<String> = Vec::new();
    let mut i: usize = 0;
    while i < msgs.len()
        invariant
            i <= msgs@.len(),
            all.deep_view() == author_tokens(msgs@.take(i as int), min_len as nat),
        decreases msgs@.len() - i,
    {
        let mut toks = tokenize_content(msgs[i].content.as_str(), min_len);
        let ghost before = all.deep_view();
        let ghost added = toks.deep_view();
        all.append(&mut toks);
        proof {
            assert(msgs@.take(i + 1).drop_last() =~= msgs@.take(i as int));
            assert(all.deep_view() =~= before + added);
        }
        i = i + 1;
    }
    assert(msgs@.take(msgs@.len() as int) =~= msgs@);
    let table = count_tokens(&all);
    let mut out: Vec<(String, usize)> = Vec::new();
    let mut j: usize = 0;
    while j < table.len()
        invariant
            j <= table@.len(),
            out@.len() == j,
            forall|k: int|
                0 <= k < j ==> (#[trigger] out@[k]).0@ == table@[k].0@ && out@[k].1 == table@[k].1,
        decreases table@.len() - j,
    {
        let w = string_of(&table[j].0);
        let c = table[j].1;
        out.push((w, c));
        j = j + 1;
    }
    assert(pairs_of(out@) =~= slots_of(table@));
    out
}

/// The number of entries that a most-common-words list keeps.
pub const TOP_WORDS: usize = 10;

/// `a` ranks before `b`: a higher count, or an equal count and a word that comes first.
pub open spec fn ranks_before(a: (Seq<char>, nat), b: (Seq<char>, nat)) -> bool {
    a.1 > b.1 || (a.1 == b.1 && lex_lt(a.0, b.0))
}

/// `r` is the list of the `n` entries of `m` that rank first, in rank order: when `m` has
/// fewer, all of them.
pub open spec fn is_top(m: Seq<(Seq<char>, nat)>, r: Seq<(Seq<char>, nat)>, n: nat) -> bool {
    &&& r.len() == if m.len() < n {
        m.len()
    } else {
        n
    }
    &&& forall|i: int, j: int| 0 <= i < j < r.len() ==> ranks_before(#[trigger] r[i], #[trigger] r[j])
    &&& forall|i: int| 0 <= i < r.len() ==> m.contains(#[trigger] r[i])
    &&& forall|j: int|
        0 <= j < m.len() ==> r.contains(#[trigger] m[j]) || (forall|i: int|
            0 <= i < r.len() ==> ranks_before(#[trigger] r[i], m[j]))
}

proof fn lemma_rank_transitive(a: (Seq<char>, nat), b: (Seq<char>, nat), c: (Seq<char>, nat))
    requires
        ranks_before(a, b),
        ranks_before(b, c),
    ensures
        ranks_before(a, c),
{
    if a.1 == b.1 && b.1 == c.1 {
        lemma_lex_transitive(a.0, b.0, c.0);
    }
}

proof fn lemma_rank_total(a: (Seq<char>, nat), b: (Seq<char>, nat))
    ensures
        a.0 != b.0 ==> ranks_before(a, b) || ranks_before(b, a),
        !(ranks_before(a, b) && ranks_before(b, a)),
        !ranks_before(a, a),
{
    lemma_lex_total(a.0, b.0);
    lemma_lex_irreflexive(a.0);
}

/// A list without repeats whose entries all occur in `m` is no longer than `m`.
proof fn lemma_len_bound(r: Seq<(Seq<char>, nat)>, m: Seq<(Seq<char>, nat)>)
    requires
        r.no_duplicates(),
        forall|i: int| 0 <= i < r.len() ==> m.contains(#[trigger] r[i]),
    ensures
        r.len() <= m.len(),
{
    r.unique_seq_to_set();
    assert(r.to_set().subset_of(m.to_set()));
    vstd::seq_lib::seq_to_set_is_finite(m);
    vstd::set_lib::lemma_len_subset(r.to_set(), m.to_set());
    m.lemma_cardinality_of_set();
}

fn rank_less(aw: &Vec<char>, ac: usize, bw: &Vec<char>, bc: usize) -> (r: bool)
    ensures
        r == ranks_before((aw@, ac as nat), (bw@, bc as nat)),
{
    ac > bc || (ac == bc && crate::order::lex_less(aw, bw))
}

/// The most common words of a frequency table, at most `TOP_WORDS` of them: by count
/// descending, and by word ascending among equal counts.
pub fn most_common_words(table: &Vec<(String, usize)>) -> (r: Vec<(String, usize)>)
    requires
        ascending(pairs_of(table@)),
    ensures
        is_top(pairs_of(table@), pairs_of(r@), TOP_WORDS as nat),
{
    let ghost m = pairs_of(table@);
    let n = table.len();
    let mut words: Vec<Vec<char>> = Vec::new();
    let mut i: usize = 0;
    while i < n
        invariant
            n == table@.len(),
            i <= n,
            words@.len() == i,
            forall|q: int| 0 <= q < i ==> (#[trigger] words@[q])@ == table@[q].0@,
        decreases n - i,
    {
        words.push(chars_of(table[i].0.as_str()));
        i = i + 1;
    }
    assert forall|q: int| 0 <= q < n implies #[trigger] m[q] == (words@[q]@, table@[q].1 as nat) by {}
    let mut top: Vec<(String, usize)> = Vec::new();
    let mut last: usize = 0;
    while top.len() < TOP_WORDS
        invariant
            n == table@.len(),
            m == pairs_of(table@),
            ascending(m),
            words@.len() == n,
            forall|q: int| 0 <= q < n ==> #[trigger] m[q] == (words@[q]@, table@[q].1 as nat),
            top@.len() <= TOP_WORDS,
            top@.len() > 0 ==> last < n && pairs_of(top@).last() == m[last as int],
            forall|a: int, b: int|
                0 <= a < b < top@.len() ==> ranks_before(
                    #[trigger] pairs_of(top@)[a],
                    #[trigger] pairs_of(top@)[b],
                ),
            forall|a: int| 0 <= a < top@.len() ==> m.contains(#[trigger] pairs_of(top@)[a]),
            forall|q: int|
                0 <= q < n ==> pairs_of(top@).contains(#[trigger] m[q]) || (forall|a: int|
                    0 <= a < top@.len() ==> ranks_before(#[trigger] pairs_of(top@)[a], m[q])),
        decreases TOP_WORDS - top@.len(),
    {
        let ghost ts = pairs_of(top@);
        let started = top.len() > 0;
        let mut best: usize = n;
        let mut j: usize = 0;
        while j < n
            invariant
                n == table@.len(),
                words@.len() == n,
                forall|q: int| 0 <= q < n ==> #[trigger] m[q] == (words@[q]@, table@[q].1 as nat),
                m == pairs_of(table@),
                m.len() == n,
                ascending(m),
                started == (top@.len() > 0),
                started ==> last < n,
                j <= n,
                best == n || (best < j && (!started || ranks_before(m[last as int], m[best as int]))),
                forall|q: int|
                    0 <= q < j && (!started || ranks_before(m[last as int], #[trigger] m[q]))
                        ==> best != n && (q == best || ranks_before(m[best as int], m[q])),
            decreases n - j,
        {
            let eligible = !started || rank_less(&words[last], table[last].1, &words[j], table[j].1);
            if eligible && (best == n || rank_less(&words[j], table[j].1, &words[best], table[best].1)) {
                proof {
                    assert forall|q: int|
                        0 <= q < j && (!started || ranks_before(m[last as int], #[trigger] m[q]))
                            implies ranks_before(m[j as int], m[q]) by {
                        if q != best {
                            lemma_rank_transitive(m[j as int], m[best as int], m[q]);
                        }
                    }
                }
                best = j;
            } else {
                proof {
                    if eligible {
                        lemma_rank_total(m[j as int], m[best as int]);
                        if j != best {
                            assert(lex_lt(m[best as int].0, m[j as int].0));
                            lemma_lex_irreflexive(m[j as int].0);
                        }
                    }
                }
            }
            j = j + 1;
        }
        if best == n {
            proof {
                assert forall|q: int| 0 <= q < n implies ts.contains(#[trigger] m[q]) by {
                    if !ts.contains(m[q]) {
                        if started {
                            assert(ranks_before(ts[ts.len() - 1], m[q]));
                        }
                    }
                }
                assert forall|a: int, b: int| 0 <= a < ts.len() && 0 <= b < ts.len() && a != b
                    implies ts[a] != ts[b] by {
                    lemma_rank_total(ts[a], ts[b]);
                }
                assert forall|a: int, b: int| 0 <= a < m.len() && 0 <= b < m.len() && a != b
                    implies m[a] != m[b] by {
                    lemma_lex_irreflexive(m[a].0);
                }
                lemma_len_bound(ts, m);
                lemma_len_bound(m, ts);
            }
            return top;
        }
        let w = table[best].0.clone();
        top.push((w, table[best].1));
        proof {
            let nt = pairs_of(top@);
            let x = m[best as int];
            assert(nt =~= ts.push(x));
            assert forall|a: int, b: int| 0 <= a < b < nt.len() implies ranks_before(
                #[trigger] nt[a],
                #[trigger] nt[b],
            ) by {
                if b == ts.len() {
                    if a < ts.len() - 1 {
                        lemma_rank_transitive(ts[a], ts[ts.len() - 1], x);
                    }
                } else {
                    assert(nt[a] == ts[a] && nt[b] == ts[b]);
                }
            }
            assert forall|a: int| 0 <= a < nt.len() implies m.contains(#[trigger] nt[a]) by {
                if a < ts.len() {
                    assert(nt[a] == ts[a]);
                }
            }
            assert forall|q: int| 0 <= q < n implies nt.contains(#[trigger] m[q]) || (forall|a: int|
                0 <= a < nt.len() ==> ranks_before(#[trigger] nt[a], m[q])) by {
                if ts.contains(m[q]) {
                    let a = choose|a: int| 0 <= a < ts.len() && ts[a] == m[q];
                    assert(nt[a] == m[q]);
                } else if q == best {
                    assert(nt[nt.len() - 1] == m[q]);
                } else {
                    if started {
                        assert(ranks_before(ts[ts.len() - 1], m[q]));
                    }
                    assert forall|a: int| 0 <= a < nt.len() implies ranks_before(#[trigger] nt[a], m[q]) by {
                        if a < ts.len() {
                            assert(nt[a] == ts[a]);
                        }
                    }
                }
            }
        }
        last = best;
    }
    proof {
        let ts = pairs_of(top@);
        assert forall|a: int, b: int| 0 <= a < ts.len() && 0 <= b < ts.len() && a != b
            implies ts[a] != ts[b] by {
            lemma_rank_total(ts[a], ts[b]);
        }
        lemma_len_bound(ts, m);
    }
    top
}

/// The most-common-words list is determined by the table: two lists that both rank the
/// first `n` entries of the same table are equal.
pub proof fn lemma_top_unique(
    m: Seq<(Seq<char>, nat)>,
    r1: Seq<(Seq<char>, nat)>,
    r2: Seq<(Seq<char>, nat)>,
    n: nat,
)
    requires
        ascending(m),
        is_top(m, r1, n),
        is_top(m, r2, n),
    ensures
        r1 == r2,
{
    assert forall|i: int| 0 <= i < r1.len() implies r1[i] == r2[i] by {
        lemma_top_prefix(m, r1, r2, n, i);
    }
    assert(r1 =~= r2);
}

proof fn lemma_top_prefix(
    m: Seq<(Seq<char>, nat)>,
    r1: Seq<(Seq<char>, nat)>,
    r2: Seq<(Seq<char>, nat)>,
    n: nat,
    i: int,
)
    requires
        ascending(m),
        is_top(m, r1, n),
        is_top(m, r2, n),
        0 <= i < r1.len(),
    ensures
        r1[i] == r2[i],
    decreases i,
{
    assert forall|k: int| 0 <= k < i implies r1[k] == r2[k] by {
        lemma_top_prefix(m, r1, r2, n, k);
    }
    let x = r1[i];
    let y = r2[i];
    if x != y {
        assert(m.contains(x));
        assert(m.contains(y));
        let px = choose|p: int| 0 <= p < m.len() && m[p] == x;
        let py = choose|p: int| 0 <= p < m.len() && m[p] == y;
        if x.0 == y.0 {
            if px < py {
                assert(lex_lt(m[px].0, m[py].0));
            } else if py < px {
                assert(lex_lt(m[py].0, m[px].0));
            }
            lemma_lex_irreflexive(x.0);
        }
        lemma_rank_total(x, y);
        if ranks_before(x, y) {
            lemma_top_absent(r1, r2, i, px, m);
        } else {
            lemma_top_absent(r2, r1, i, py, m);
        }
    }
}

/// With equal prefixes before `i`, the entry `a[i]` that ranks before `b[i]` cannot be
/// missing from `b`, nor stand in it: the two entries are then equal.
proof fn lemma_top_absent(
    a: Seq<(Seq<char>, nat)>,
    b: Seq<(Seq<char>, nat)>,
    i: int,
    p: int,
    m: Seq<(Seq<char>, nat)>,
)
    requires
        0 <= i < a.len(),
        a.len() == b.len(),
        0 <= p < m.len(),
        m[p] == a[i],
        forall|k: int| 0 <= k < i ==> a[k] == b[k],
        forall|s: int, t: int| 0 <= s < t < a.len() ==> ranks_before(#[trigger] a[s], #[trigger] a[t]),
        forall|s: int, t: int| 0 <= s < t < b.len() ==> ranks_before(#[trigger] b[s], #[trigger] b[t]),
        forall|j: int|
            0 <= j < m.len() ==> b.contains(#[trigger] m[j]) || (forall|s: int|
                0 <= s < b.len() ==> ranks_before(#[trigger] b[s], m[j])),
        ranks_before(a[i], b[i]),
    ensures
        a[i] == b[i],
{
    let x = a[i];
    lemma_rank_total(x, b[i]);
    if b.contains(x) {
        let j = choose|j: int| 0 <= j < b.len() && b[j] == x;
        if j < i {
            assert(a[j] == x);
            assert(ranks_before(a[j], a[i]));
            lemma_rank_total(x, x);
        } else if j > i {
            assert(ranks_before(b[i], b[j]));
        }
    } else {
        assert(b.contains(m[p]) || ranks_before(b[i], m[p]));
    }
}

} // verus!
