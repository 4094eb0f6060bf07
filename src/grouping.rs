//! Grouping messages by author, and removing messages whose content repeats.
use vstd::prelude::*;

use crate::message::Message;
use crate::order::{keys_ascending, lemma_lex_irreflexive, lemma_lex_transitive, lex_lt, locate};
use crate::text::chars_of;

verus! {

/// The messages of `msgs` written by the author `id`, in their order.
pub open spec fn by_author(msgs: Seq<Message>, id: Seq<char>) -> Seq<Message> {
    msgs.filter(|m: Message| m.author_id@ == id)
}

/// `groups` partitions `msgs` by author: one group per distinct author identifier,
/// each holding that author's messages in their order.
pub open spec fn grouped(msgs: Seq<Message>, groups: Seq<(String, Vec<Message>)>) -> bool {
    &&& forall|i: int, j: int|
        0 <= i < j < groups.len() ==> #[trigger] groups[i].0@ != #[trigger] groups[j].0@
    &&& forall|i: int|
        0 <= i < groups.len() ==> (#[trigger] groups[i]).1@ == by_author(msgs, groups[i].0@)
            && groups[i].1@.len() > 0
    &&& forall|k: int|
        0 <= k < msgs.len() ==> exists|i: int|
            0 <= i < groups.len() && #[trigger] groups[i].0@ == (#[trigger] msgs[k]).author_id@
}

/// Some message of `out` has content `c`.
pub open spec fn keeps_content(out: Seq<Message>, c: Seq<char>) -> bool {
    exists|i: int| 0 <= i < out.len() && out[i].content@ == c
}

/// Some entry of `slots` has key `c`.
spec fn has_key(slots: Seq<(Vec<char>, Message)>, c: Seq<char>) -> bool {
    exists|i: int| 0 <= i < slots.len() && slots[i].0@ == c
}

/// `out` is `msgs` without repeated contents: its contents rise strictly, so no two are
/// equal; each of its messages is one of `msgs`; and every content of `msgs` is kept.
#[verifier::opaque]
pub open spec fn deduplicated(msgs: Seq<Message>, out: Seq<Message>) -> bool {
    &&& forall|i: int, j: int|
        0 <= i < j < out.len() ==> lex_lt(#[trigger] out[i].content@, #[trigger] out[j].content@)
    &&& forall|i: int| 0 <= i < out.len() ==> msgs.contains(#[trigger] out[i])
    &&& forall|k: int| 0 <= k < msgs.len() ==> keeps_content(out, (#[trigger] msgs[k]).content@)
}

/// Splits messages into one group per author identifier, groups in the order in which
/// their authors first appear, messages within a group in their order.
pub fn group_by_author(msgs: Vec<Message>) -> (r: Vec<(String, Vec<Message>)>)
    ensures
        grouped(msgs@, r@),
{
    let mut groups: Vec<(String, Vec<Message>)> = Vec::new();
    let mut k: usize = 0;
    while k < msgs.len()
        invariant
            k <= msgs@.len(),
            grouped(msgs@.take(k as int), groups@),
        decreases msgs@.len() - k,
    {
        let ghost pre = msgs@.take(k as int);
        let ghost now = msgs@.take(k + 1);
        let m = msgs[k].duplicate();
        proof {
            reveal(Seq::filter);
            assert(now.drop_last() =~= pre);
            assert(now.last() == m);
        }
        let mut g: usize = 0;
        while g < groups.len() && groups[g].0 != m.author_id
            invariant
                g <= groups@.len(),
                forall|t: int| 0 <= t < g ==> groups@[t].0@ != m.author_id@,
            decreases groups@.len() - g,
        {
            g = g + 1;
        }
        let ghost old_groups = groups@;
        if g < groups.len() {
            groups[g].1.push(m);
            proof {
                assert forall|i: int| 0 <= i < groups@.len() implies (#[trigger] groups@[i]).1@
                    == by_author(now, groups@[i].0@) && groups@[i].1@.len() > 0 by {
                    assert(groups@[i].0 == old_groups[i].0);
                }
                assert forall|t: int| 0 <= t < now.len() implies exists|i: int|
                    0 <= i < groups@.len() && #[trigger] groups@[i].0@ == (
                    #[trigger] now[t]).author_id@ by {
                    if t < pre.len() {
                        assert(now[t] == pre[t]);
                        let i = choose|i: int|
                            0 <= i < old_groups.len() && #[trigger] old_groups[i].0@ == (
                            #[trigger] pre[t]).author_id@;
                        assert(groups@[i].0 == old_groups[i].0);
                    } else {
                        assert(groups@[g as int].0@ == now[t].author_id@);
                    }
                }
            }
        } else {
            let id = m.author_id.clone();
            let mut bucket: Vec<Message> = Vec::new();
            bucket.push(m);
            groups.push((id, bucket));
            proof {
                assert forall|i: int| 0 <= i < groups@.len() implies (#[trigger] groups@[i]).1@
                    == by_author(now, groups@[i].0@) && groups@[i].1@.len() > 0 by {
                    if i == old_groups.len() {
                        assert forall|t: int| 0 <= t < pre.len() implies (#[trigger] pre[t]).author_id@
                            != m.author_id@ by {
                            assert(pre[t] == msgs@[t]);
                            if pre[t].author_id@ == m.author_id@ {
                                let i2 = choose|i2: int|
                                    0 <= i2 < old_groups.len() && #[trigger] old_groups[i2].0@ == (
                                    #[trigger] pre[t]).author_id@;
                                assert(old_groups[i2].0@ != m.author_id@);
                            }
                        }
                        assert(pre.filter(|x: Message| x.author_id@ == m.author_id@).len() == 0)
                            by {
                            lemma_filter_empty(pre, m.author_id@);
                        }
                        assert(groups@[i].1@ =~= by_author(now, groups@[i].0@));
                    }
                }
                assert forall|t: int| 0 <= t < now.len() implies exists|i: int|
                    0 <= i < groups@.len() && #[trigger] groups@[i].0@ == (
                    #[trigger] now[t]).author_id@ by {
                    if t < pre.len() {
                        assert(now[t] == pre[t]);
                        let i = choose|i: int|
                            0 <= i < old_groups.len() && #[trigger] old_groups[i].0@ == (
                            #[trigger] pre[t]).author_id@;
                        assert(groups@[i] == old_groups[i]);
                    } else {
                        assert(groups@[g as int].0@ == now[t].author_id@);
                    }
                }
            }
        }
        k = k + 1;
    }
    assert(msgs@.take(msgs@.len() as int) =~= msgs@);
    groups
}

/// Removes messages whose content repeats, keeping one message for each content; the
/// survivors come in ascending order of content.
pub fn dedup_by_content(msgs: Vec<Message>) -> (r: Vec<Message>)
    ensures
        deduplicated(msgs@, r@),
{
    let mut slots: Vec<(Vec<char>, Message)> = Vec::new();
    let mut k: usize = 0;
    while k < msgs.len()
        invariant
            k <= msgs@.len(),
            keys_ascending(slots@),
            forall|i: int| 0 <= i < slots@.len() ==> (#[trigger] slots@[i]).0@ == slots@[i].1.content@,
            forall|i: int| 0 <= i < slots@.len() ==> msgs@.contains((#[trigger] slots@[i]).1),
            forall|t: int| 0 <= t < k ==> has_key(slots@, (#[trigger] msgs@[t]).content@),
        decreases msgs@.len() - k,
    {
        let key = chars_of(msgs[k].content.as_str());
        let (p, found) = locate(&slots, &key);
        if !found {
            let ghost before = slots@;
            let m = msgs[k].duplicate();
            slots.insert(p, (key, m));
            proof {
                assert(slots@ == before.insert(p as int, (key, m)));
                assert forall|i: int, j: int| 0 <= i < j < slots@.len() implies lex_lt(
                    #[trigger] slots@[i].0@,
                    #[trigger] slots@[j].0@,
                ) by {
                    if j < p {
                    } else if j == p {
                    } else if i < p {
                        lemma_lex_transitive(slots@[i].0@, key@, slots@[j].0@);
                    } else if i == p {
                    } else {
                        assert(slots@[i] == before[i - 1] && slots@[j] == before[j - 1]);
                    }
                }
                assert forall|i: int| 0 <= i < slots@.len() implies msgs@.contains(
                    (#[trigger] slots@[i]).1,
                ) by {
                    if i == p {
                        assert(msgs@[k as int] == m);
                    } else if i > p {
                        assert(slots@[i] == before[i - 1]);
                    }
                }
                assert forall|t: int| 0 <= t < k + 1 implies has_key(
                    slots@,
                    (#[trigger] msgs@[t]).content@,
                ) by {
                    if t == k {
                        assert(slots@[p as int].0@ == msgs@[t].content@);
                    } else {
                        assert(has_key(before, msgs@[t].content@));
                        let i = choose|i: int|
                            0 <= i < before.len() && before[i].0@ == msgs@[t].content@;
                        if i < p {
                            assert(slots@[i] == before[i]);
                        } else {
                            assert(slots@[i + 1] == before[i]);
                        }
                    }
                }
            }
        }
        k = k + 1;
    }
    let mut out: Vec<Message> = Vec::new();
    let mut i: usize = 0;
    while i < slots.len()
        invariant
            i <= slots@.len(),
            out@.len() == i,
            forall|j: int| 0 <= j < i ==> #[trigger] out@[j] == slots@[j].1,
            keys_ascending(slots@),
            forall|j: int| 0 <= j < slots@.len() ==> (#[trigger] slots@[j]).0@ == slots@[j].1.content@,
            forall|j: int| 0 <= j < slots@.len() ==> msgs@.contains((#[trigger] slots@[j]).1),
            forall|t: int| 0 <= t < msgs@.len() ==> has_key(slots@, (#[trigger] msgs@[t]).content@),
        decreases slots@.len() - i,
    {
        out.push(slots[i].1.duplicate());
        i = i + 1;
    }
    proof {
        assert forall|t: int| 0 <= t < msgs@.len() implies keeps_content(
            out@,
            (#[trigger] msgs@[t]).content@,
        ) by {
            assert(has_key(slots@, msgs@[t].content@));
            let j = choose|j: int| 0 <= j < slots@.len() && slots@[j].0@ == msgs@[t].content@;
            assert(out@[j] == slots@[j].1);
            assert(slots@[j].0@ == slots@[j].1.content@);
        }
        assert forall|a: int, b: int| 0 <= a < b < out@.len() implies lex_lt(
            #[trigger] out@[a].content@,
            #[trigger] out@[b].content@,
        ) by {
            assert(out@[a] == slots@[a].1 && out@[b] == slots@[b].1);
            assert(slots@[a].0@ == slots@[a].1.content@);
            assert(slots@[b].0@ == slots@[b].1.content@);
        }
        assert forall|j: int| 0 <= j < out@.len() implies msgs@.contains(#[trigger] out@[j]) by {
            assert(out@[j] == slots@[j].1);
        }
    }
    reveal(deduplicated);
    out
}

/// Deduplication is idempotent: deduplicating a deduplicated list again leaves the
/// same set of messages.
pub proof fn lemma_dedup_idempotent(msgs: Seq<Message>, once: Seq<Message>, twice: Seq<Message>)
    requires
        deduplicated(msgs, once),
        deduplicated(once, twice),
    ensures
        twice.to_set() == once.to_set(),
{
    assert forall|x: Message| #[trigger] once.to_set().contains(x) implies twice.to_set().contains(
        x,
    ) by {
        let k = choose|k: int| 0 <= k < once.len() && once[k] == x;
        lemma_dedup_keeps(msgs, once, twice, k);
    }
    assert forall|x: Message| #[trigger] twice.to_set().contains(x) implies once.to_set().contains(
        x,
    ) by {
        reveal(deduplicated);
        let i = choose|i: int| 0 <= i < twice.len() && twice[i] == x;
        assert(once.contains(twice[i]));
    }
    assert(twice.to_set() =~= once.to_set());
}

proof fn lemma_dedup_keeps(msgs: Seq<Message>, once: Seq<Message>, twice: Seq<Message>, k: int)
    requires
        deduplicated(msgs, once),
        deduplicated(once, twice),
        0 <= k < once.len(),
    ensures
        twice.contains(once[k]),
        twice.to_set().contains(once[k]),
{
    reveal(deduplicated);
    assert(keeps_content(twice, once[k].content@));
    let i = choose|i: int| 0 <= i < twice.len() && twice[i].content@ == once[k].content@;
    assert(once.contains(twice[i]));
    let j = choose|j: int| 0 <= j < once.len() && once[j] == twice[i];
    lemma_lex_irreflexive(once[k].content@);
    if j < k {
        assert(lex_lt(once[j].content@, once[k].content@));
    } else if k < j {
        assert(lex_lt(once[k].content@, once[j].content@));
    }
    assert(twice[i] == once[k]);
    assert(twice.to_set().contains(once[k]));
}

/// No message of `s` has author `id`, so none is selected.
proof fn lemma_filter_empty(s: Seq<Message>, id: Seq<char>)
    requires
        forall|t: int| 0 <= t < s.len() ==> (#[trigger] s[t]).author_id@ != id,
    ensures
        by_author(s, id).len() == 0,
    decreases s.len(),
{
    reveal(Seq::filter);
    if s.len() > 0 {
        assert forall|t: int| 0 <= t < s.drop_last().len() implies (
        #[trigger] s.drop_last()[t]).author_id@ != id by {
            assert(s.drop_last()[t] == s[t]);
        }
        lemma_filter_empty(s.drop_last(), id);
    }
}

} // verus!
