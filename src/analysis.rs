//! Per-author analyses and their aggregation into the result of a run.
use vstd::prelude::*;

use crate::frequency::{
    ascending, author_tokens, count_of, is_table_of, is_top, lemma_count_absent, lemma_count_at,
    most_common_words, pairs_of, positive, slots_of, word_frequency, TOP_WORDS,
};
use crate::grouping::{by_author, dedup_by_content, deduplicated, group_by_author, grouped};
use crate::message::{filter_relevant, relevant_of, Message};
use crate::order::{keys_ascending, lemma_lex_transitive, lex_lt, locate};
use crate::text::{chars_of, string_of};

verus! {

/// What was found about one author.
#[derive(Clone, Debug)]
pub struct AuthorAnalysis {
    pub author_id: String,
    pub author_name: String,
    pub author_nickname: String,
    pub total_messages_to_deleted_user: usize,
    pub unique_message_count: usize,
    /// (word, count) pairs in ascending order of words.
    pub word_frequency: Vec<(String, usize)>,
    /// The most common words, by count descending and word ascending.
    pub most_common_words: Vec<(String, usize)>,
}

/// What was found over all authors.
#[derive(Clone, Debug)]
pub struct AnalysisResult {
    pub total_messages: usize,
    pub messages_to_deleted_users: usize,
    pub unique_authors: usize,
    pub authors_analysis: Vec<AuthorAnalysis>,
    /// (word, count) pairs in ascending order of words.
    pub global_word_frequency: Vec<(String, usize)>,
}

impl AuthorAnalysis {
    /// The word-frequency table has one entry per word, in ascending order, with positive counts.
    pub open spec fn table_ok(self) -> bool {
        ascending(pairs_of(self.word_frequency@)) && positive(pairs_of(self.word_frequency@))
    }
}

/// Sum of the authors' message counts.
pub open spec fn sum_totals(a: Seq<AuthorAnalysis>) -> nat
    decreases a.len(),
{
    if a.len() == 0 {
        0
    } else {
        sum_totals(a.drop_last()) + a.last().total_messages_to_deleted_user as nat
    }
}

/// Sum of the authors' unique-message counts.
pub open spec fn sum_unique(a: Seq<AuthorAnalysis>) -> nat
    decreases a.len(),
{
    if a.len() == 0 {
        0
    } else {
        sum_unique(a.drop_last()) + a.last().unique_message_count as nat
    }
}

/// Sum over the authors of the count of `w` in their tables.
pub open spec fn global_count(a: Seq<AuthorAnalysis>, w: Seq<char>) -> nat
    decreases a.len(),
{
    if a.len() == 0 {
        0
    } else {
        global_count(a.drop_last(), w) + count_of(pairs_of(a.last().word_frequency@), w)
    }
}

/// Every sum that a result holds fits in a `usize`.
pub open spec fn fits(a: Seq<AuthorAnalysis>) -> bool {
    &&& sum_totals(a) <= usize::MAX
    &&& sum_unique(a) <= usize::MAX
    &&& forall|w: Seq<char>| #[trigger] global_count(a, w) <= usize::MAX
}

/// `r` is the result assembled from the analyses `a`.
pub open spec fn result_of(a: Seq<AuthorAnalysis>, r: AnalysisResult) -> bool {
    &&& r.total_messages == sum_totals(a)
    &&& r.messages_to_deleted_users == sum_unique(a)
    &&& r.unique_authors == a.len()
    &&& r.authors_analysis@ == a
    &&& ascending(pairs_of(r.global_word_frequency@))
    &&& positive(pairs_of(r.global_word_frequency@))
    &&& forall|w: Seq<char>|
        #[trigger] count_of(pairs_of(r.global_word_frequency@), w) == global_count(a, w)
}

proof fn lemma_sums_prefix(a: Seq<AuthorAnalysis>, i: int, w: Seq<char>)
    requires
        0 <= i <= a.len(),
    ensures
        sum_totals(a.take(i)) <= sum_totals(a),
        sum_unique(a.take(i)) <= sum_unique(a),
        global_count(a.take(i), w) <= global_count(a, w),
    decreases a.len(),
{
    if i == a.len() {
        assert(a.take(i) =~= a);
    } else {
        assert(a.take(i) =~= a.drop_last().take(i));
        lemma_sums_prefix(a.drop_last(), i, w);
    }
}

proof fn lemma_count_prefix(m: Seq<(Seq<char>, nat)>, e: int, w: Seq<char>)
    requires
        0 <= e <= m.len(),
    ensures
        count_of(m.take(e), w) <= count_of(m, w),
    decreases m.len(),
{
    if e == m.len() {
        assert(m.take(e) =~= m);
    } else {
        assert(m.take(e) =~= m.drop_last().take(e));
        lemma_count_prefix(m.drop_last(), e, w);
    }
}

/// Adding `c` to the count of `key` in an ascending table, as `locate` placed it.
proof fn lemma_add_count(
    old_t: Seq<(Vec<char>, usize)>,
    new_t: Seq<(Vec<char>, usize)>,
    key: Seq<char>,
    c: nat,
    p: int,
    found: bool,
)
    requires
        keys_ascending(old_t),
        positive(slots_of(old_t)),
        c > 0,
        0 <= p <= old_t.len(),
        forall|j: int| 0 <= j < p ==> lex_lt(#[trigger] old_t[j].0@, key),
        found ==> p < old_t.len() && old_t[p].0@ == key && new_t.len() == old_t.len() && new_t[p].0@
            == key && new_t[p].1 == old_t[p].1 + c && forall|j: int|
            0 <= j < old_t.len() && j != p ==> #[trigger] new_t[j] == old_t[j],
        !found ==> (forall|j: int| p <= j < old_t.len() ==> lex_lt(key, #[trigger] old_t[j].0@))
            && new_t.len() == old_t.len() + 1 && new_t[p].0@ == key && new_t[p].1 == c && (forall|
            j: int|
            0 <= j < p ==> #[trigger] new_t[j] == old_t[j]) && (forall|j: int|
            p < j < new_t.len() ==> #[trigger] new_t[j] == old_t[j - 1]),
    ensures
        keys_ascending(new_t),
        positive(slots_of(new_t)),
        forall|w: Seq<char>| #[trigger] count_of(slots_of(new_t), w) == count_of(slots_of(old_t), w) + if w == key {
            c
        } else {
            0
        },
{
    let om = slots_of(old_t);
    let nm = slots_of(new_t);
    assert forall|a: int, b: int| 0 <= a < b < new_t.len() implies lex_lt(
        #[trigger] new_t[a].0@,
        #[trigger] new_t[b].0@,
    ) by {
        if found {
            if a == p {
                assert(new_t[b] == old_t[b]);
            } else if b == p {
                assert(new_t[a] == old_t[a]);
            } else {
                assert(new_t[a] == old_t[a] && new_t[b] == old_t[b]);
            }
        } else if b < p {
            assert(new_t[a] == old_t[a] && new_t[b] == old_t[b]);
        } else if b == p {
            assert(new_t[a] == old_t[a]);
        } else if a < p {
            assert(new_t[a] == old_t[a] && new_t[b] == old_t[b - 1]);
            lemma_lex_transitive(new_t[a].0@, key, new_t[b].0@);
        } else if a == p {
            assert(new_t[b] == old_t[b - 1]);
        } else {
            assert(new_t[a] == old_t[a - 1] && new_t[b] == old_t[b - 1]);
        }
    }
    assert forall|a: int, b: int| 0 <= a < b < nm.len() implies lex_lt(
        #[trigger] nm[a].0,
        #[trigger] nm[b].0,
    ) by {
        assert(nm[a].0 == new_t[a].0@ && nm[b].0 == new_t[b].0@);
    }
    assert forall|a: int, b: int| 0 <= a < b < om.len() implies lex_lt(
        #[trigger] om[a].0,
        #[trigger] om[b].0,
    ) by {
        assert(om[a].0 == old_t[a].0@ && om[b].0 == old_t[b].0@);
    }
    assert forall|j: int| 0 <= j < nm.len() implies (#[trigger] nm[j]).1 > 0 by {
        if found {
            if j != p {
                assert(new_t[j] == old_t[j]);
                assert(om[j].1 > 0);
            }
        } else if j < p {
            assert(new_t[j] == old_t[j]);
            assert(om[j].1 > 0);
        } else if j > p {
            assert(new_t[j] == old_t[j - 1]);
            assert(om[j - 1].1 > 0);
        }
    }
    assert forall|w: Seq<char>| #[trigger] count_of(nm, w) == count_of(om, w) + if w == key {
        c
    } else {
        0
    } by {
        if w == key {
            lemma_count_at(nm, p);
            if found {
                lemma_count_at(om, p);
            } else {
                assert forall|j: int| 0 <= j < om.len() implies (#[trigger] om[j]).0 != w by {
                    crate::order::lemma_lex_irreflexive(key);
                }
                lemma_count_absent(om, w);
            }
        } else if exists|j: int| 0 <= j < om.len() && om[j].0 == w {
            let j = choose|j: int| 0 <= j < om.len() && om[j].0 == w;
            lemma_count_at(om, j);
            if found || j < p {
                assert(nm[j] == om[j]);
                lemma_count_at(nm, j);
            } else {
                assert(nm[j + 1] == om[j]);
                lemma_count_at(nm, j + 1);
            }
        } else {
            lemma_count_absent(om, w);
            assert forall|j: int| 0 <= j < nm.len() implies (#[trigger] nm[j]).0 != w by {
                if found || j < p {
                    if j != p {
                        assert(nm[j] == om[j]);
                    }
                } else if j > p {
                    assert(nm[j] == om[j - 1]);
                }
            }
            lemma_count_absent(nm, w);
        }
    }
}

/// Merges the analyses of all authors into the result of the run: message totals summed
/// over authors, the number of authors, and a global table whose count for each word is
/// the sum of the authors' counts. Returns `None` exactly when one of these sums does not
/// fit in a `usize`.
pub fn aggregate(authors: Vec<AuthorAnalysis>) -> (r: Option<AnalysisResult>)
    requires
        forall|i: int| 0 <= i < authors@.len() ==> (#[trigger] authors@[i]).table_ok(),
    ensures
        r is Some <==> fits(authors@),
        r is Some ==> result_of(authors@, r->0),
{
    let ghost all = authors@;
    let mut total: usize = 0;
    let mut uniq: usize = 0;
    let mut global: Vec<(Vec<char>, usize)> = Vec::new();
    let mut ai: usize = 0;
    while ai < authors.len()
        invariant
            all == authors@,
            forall|i: int| 0 <= i < all.len() ==> (#[trigger] all[i]).table_ok(),
            ai <= all.len(),
            total == sum_totals(all.take(ai as int)),
            uniq == sum_unique(all.take(ai as int)),
            keys_ascending(global@),
            positive(slots_of(global@)),
            forall|w: Seq<char>|
                #[trigger] count_of(slots_of(global@), w) == global_count(all.take(ai as int), w),
        decreases all.len() - ai,
    {
        let a = &authors[ai];
        let ghost m = pairs_of(a.word_frequency@);
        let ghost pre = all.take(ai as int);
        let ghost now = all.take(ai + 1);
        proof {
            assert(now.drop_last() =~= pre);
            assert(now.last() == all[ai as int]);
            lemma_sums_prefix(all, ai + 1, Seq::empty());
        }
        if total > usize::MAX - a.total_messages_to_deleted_user {
            return None;
        }
        total = total + a.total_messages_to_deleted_user;
        if uniq > usize::MAX - a.unique_message_count {
            return None;
        }
        uniq = uniq + a.unique_message_count;
        let mut ei: usize = 0;
        while ei < a.word_frequency.len()
            invariant
                all == authors@,
                a == all[ai as int],
                0 <= ai < all.len(),
                m == pairs_of(a.word_frequency@),
                ascending(m),
                positive(m),
                pre == all.take(ai as int),
                now == all.take(ai + 1),
                now.drop_last() == pre,
                ei <= m.len(),
                keys_ascending(global@),
                positive(slots_of(global@)),
                forall|w: Seq<char>|
                    #[trigger] count_of(slots_of(global@), w) == global_count(pre, w) + count_of(
                        m.take(ei as int),
                        w,
                    ),
            decreases m.len() - ei,
        {
            let key = chars_of(a.word_frequency[ei].0.as_str());
            let c = a.word_frequency[ei].1;
            let ghost old_t = global@;
            proof {
                assert(m.take(ei + 1).drop_last() =~= m.take(ei as int));
                assert(m[ei as int] == (key@, c as nat));
                assert(m[ei as int].1 > 0);
            }
            let (p, found) = locate(&global, &key);
            if found {
                let prior = global[p].1;
                if prior > usize::MAX - c {
                    proof {
                        lemma_count_at(slots_of(old_t), p as int);
                        assert(slots_of(old_t)[p as int].0 == key@);
                        lemma_count_prefix(m, ei + 1, key@);
                        lemma_sums_prefix(all, ai + 1, key@);
                        assert(global_count(all, key@) > usize::MAX);
                    }
                    return None;
                }
                global[p].1 = prior + c;
            } else {
                global.insert(p, (key, c));
            }
            proof {
                lemma_add_count(old_t, global@, key@, c as nat, p as int, found);
            }
            ei = ei + 1;
        }
        proof {
            assert(m.take(m.len() as int) =~= m);
        }
        ai = ai + 1;
    }
    assert(all.take(all.len() as int) =~= all);
    let mut out: Vec<(String, usize)> = Vec::new();
    let mut j: usize = 0;
    while j < global.len()
        invariant
            j <= global@.len(),
            out@.len() == j,
            forall|k: int|
                0 <= k < j ==> (#[trigger] out@[k]).0@ == global@[k].0@ && out@[k].1 == global@[k].1,
        decreases global@.len() - j,
    {
        let w = string_of(&global[j].0);
        let c = global[j].1;
        out.push((w, c));
        j = j + 1;
    }
    assert(pairs_of(out@) =~= slots_of(global@));
    proof {
        let gm = slots_of(global@);
        assert forall|a: int, b: int| 0 <= a < b < gm.len() implies lex_lt(
            #[trigger] gm[a].0,
            #[trigger] gm[b].0,
        ) by {
            assert(gm[a].0 == global@[a].0@ && gm[b].0 == global@[b].0@);
        }
        assert forall|w: Seq<char>| #[trigger] global_count(all, w) <= usize::MAX by {
            assert(count_of(gm, w) == global_count(all, w));
            if exists|j: int| 0 <= j < gm.len() && gm[j].0 == w {
                let j = choose|j: int| 0 <= j < gm.len() && gm[j].0 == w;
                lemma_count_at(gm, j);
                assert(gm[j].1 == global@[j].1);
            } else {
                lemma_count_absent(gm, w);
            }
        }
    }
    let n = authors.len();
    Some(
        AnalysisResult {
            total_messages: total,
            messages_to_deleted_users: uniq,
            unique_authors: n,
            authors_analysis: authors,
            global_word_frequency: out,
        },
    )
}

/// `x` describes an author whose messages, without repeated contents, are `d`.
pub open spec fn describes(d: Seq<Message>, min_len: nat, x: AuthorAnalysis) -> bool {
    &&& d.len() > 0
    &&& x.author_name == d[0].author_name
    &&& x.author_nickname == d[0].author_nickname
    &&& x.total_messages_to_deleted_user == d.len()
    &&& x.unique_message_count == d.len()
    &&& is_table_of(pairs_of(x.word_frequency@), author_tokens(d, min_len))
    &&& is_top(pairs_of(x.word_frequency@), pairs_of(x.most_common_words@), TOP_WORDS as nat)
}

/// `x` is the analysis of the author `id`, whose messages are `group`.
pub open spec fn analyses_author(group: Seq<Message>, id: Seq<char>, min_len: nat, x: AuthorAnalysis) -> bool {
    &&& x.author_id@ == id
    &&& exists|d: Seq<Message>| #[trigger] deduplicated(group, d) && describes(d, min_len, x)
}

/// Some analysis of `a` is of the author `id`.
pub open spec fn has_author(a: Seq<AuthorAnalysis>, id: Seq<char>) -> bool {
    exists|i: int| 0 <= i < a.len() && a[i].author_id@ == id
}

/// `a` holds one analysis for each author of a relevant message of `msgs`, and nothing else.
pub open spec fn analyses_of(msgs: Seq<Message>, min_len: nat, a: Seq<AuthorAnalysis>) -> bool {
    let rel = relevant_of(msgs);
    &&& forall|i: int, j: int|
        0 <= i < j < a.len() ==> #[trigger] a[i].author_id@ != #[trigger] a[j].author_id@
    &&& forall|k: int| 0 <= k < rel.len() ==> has_author(a, (#[trigger] rel[k]).author_id@)
    &&& forall|i: int|
        0 <= i < a.len() ==> analyses_author(
            by_author(rel, a[i].author_id@),
            a[i].author_id@,
            min_len,
            #[trigger] a[i],
        )
}

/// Analyses one author from their messages without repeated contents: name and nickname
/// from the first message, message counts, word frequencies and most common words.
pub fn analyze_author(author_id: String, msgs: Vec<Message>, min_len: usize) -> (r: AuthorAnalysis)
    requires
        msgs@.len() > 0,
    ensures
        r.author_id == author_id,
        describes(msgs@, min_len as nat, r),
        r.table_ok(),
{
    let table = word_frequency(&msgs, min_len);
    let top = most_common_words(&table);
    AuthorAnalysis {
        author_id,
        author_name: msgs[0].author_name.clone(),
        author_nickname: msgs[0].author_nickname.clone(),
        total_messages_to_deleted_user: msgs.len(),
        unique_message_count: msgs.len(),
        word_frequency: table,
        most_common_words: top,
    }
}

/// The whole analysis of a run: keeps the messages about a deleted user, groups them by
/// author, drops repeated contents within each author, analyses each author and merges
/// the analyses. Returns `None` exactly when a merged sum does not fit in a `usize`.
pub fn analyze(messages: Vec<Message>, min_len: usize) -> (r: Option<AnalysisResult>)
    ensures
        exists|a: Seq<AuthorAnalysis>|
            #[trigger] analyses_of(messages@, min_len as nat, a) && (r is Some <==> fits(a)) && (
            r is Some ==> result_of(a, r->0)),
{
    let ghost rel = relevant_of(messages@);
    let relevant = filter_relevant(messages);
    let mut groups = group_by_author(relevant);
    let ghost g0 = groups@;
    let ghost n = g0.len();
    let mut analyses: Vec<AuthorAnalysis> = Vec::new();
    while groups.len() > 0
        invariant
            grouped(rel, g0),
            n == g0.len(),
            analyses@.len() <= n,
            groups@ == g0.take(n - analyses@.len()),
            forall|i: int| 0 <= i < analyses@.len() ==> (#[trigger] analyses@[i]).table_ok(),
            forall|i: int|
                0 <= i < analyses@.len() ==> analyses_author(
                    by_author(rel, g0[n - 1 - i].0@),
                    g0[n - 1 - i].0@,
                    min_len as nat,
                    #[trigger] analyses@[i],
                ),
        decreases groups@.len(),
    {
        let ghost k = n - 1 - analyses@.len();
        let (id, msgs) = groups.pop().unwrap();
        proof {
            assert(g0.take(n - analyses@.len()).last() == g0[k]);
            assert(groups@ =~= g0.take(k));
        }
        let ghost grp = msgs@;
        let deduped = dedup_by_content(msgs);
        proof {
            reveal(deduplicated);
            assert(grp.len() > 0);
            assert(crate::grouping::keeps_content(deduped@, grp[0].content@));
        }
        let ghost d = deduped@;
        let x = analyze_author(id, deduped, min_len);
        proof {
            assert(deduplicated(grp, d) && describes(d, min_len as nat, x));
        }
        analyses.push(x);
    }
    proof {
        let a = analyses@;
        assert(a.len() == n);
        assert forall|i: int, j: int| 0 <= i < j < a.len() implies #[trigger] a[i].author_id@
            != #[trigger] a[j].author_id@ by {
            assert(a[i].author_id@ == g0[n - 1 - i].0@);
            assert(a[j].author_id@ == g0[n - 1 - j].0@);
        }
        assert forall|k: int| 0 <= k < rel.len() implies has_author(
            a,
            (#[trigger] rel[k]).author_id@,
        ) by {
            let g = choose|g: int| 0 <= g < g0.len() && #[trigger] g0[g].0@ == (#[trigger] rel[k]).author_id@;
            assert(a[n - 1 - g].author_id@ == g0[g].0@);
        }
        assert forall|i: int| 0 <= i < a.len() implies analyses_author(
            by_author(rel, a[i].author_id@),
            a[i].author_id@,
            min_len as nat,
            #[trigger] a[i],
        ) by {
            assert(a[i].author_id@ == g0[n - 1 - i].0@);
        }
        assert(analyses_of(messages@, min_len as nat, a));
    }
    aggregate(analyses)
}

proof fn lemma_sums_agree(a: Seq<AuthorAnalysis>)
    requires
        forall|i: int|
            0 <= i < a.len() ==> (#[trigger] a[i]).total_messages_to_deleted_user
                == a[i].unique_message_count,
    ensures
        sum_totals(a) == sum_unique(a),
    decreases a.len(),
{
    if a.len() > 0 {
        let d = a.drop_last();
        assert forall|i: int| 0 <= i < d.len() implies (#[trigger] d[i]).total_messages_to_deleted_user
            == d[i].unique_message_count by {
            assert(d[i] == a[i]);
        }
        lemma_sums_agree(d);
        assert(a[a.len() - 1] == a.last());
    }
}

/// Each author's message count equals their unique-message count, since repeats are
/// removed before counting; so the result's message total equals its unique total, and
/// both are the sums over authors.
pub proof fn lemma_counts_agree(
    msgs: Seq<Message>,
    min_len: nat,
    a: Seq<AuthorAnalysis>,
    r: AnalysisResult,
)
    requires
        analyses_of(msgs, min_len, a),
        result_of(a, r),
    ensures
        forall|i: int|
            0 <= i < r.authors_analysis@.len() ==> (#[trigger] r.authors_analysis@[i]).total_messages_to_deleted_user
                == r.authors_analysis@[i].unique_message_count,
        r.total_messages == sum_totals(r.authors_analysis@),
        r.total_messages == r.messages_to_deleted_users,
{
    let rel = relevant_of(msgs);
    assert forall|i: int| 0 <= i < a.len() implies (#[trigger] a[i]).total_messages_to_deleted_user
        == a[i].unique_message_count by {
        assert(analyses_author(by_author(rel, a[i].author_id@), a[i].author_id@, min_len, a[i]));
    }
    lemma_sums_agree(a);
}

} // verus!
