//! Lexicographic order on character sequences, and search in vectors kept in that order.
use vstd::prelude::*;

verus! {

/// `a` comes strictly before `b` in lexicographic order of code points, which is also
/// the byte order of their UTF-8 encodings.
pub open spec fn lex_lt(a: Seq<char>, b: Seq<char>) -> bool
    decreases a.len(),
{
    if a.len() == 0 {
        b.len() > 0
    } else if b.len() == 0 {
        false
    } else if a[0] != b[0] {
        (a[0] as u32) < (b[0] as u32)
    } else {
        lex_lt(a.drop_first(), b.drop_first())
    }
}

/// No sequence comes before itself.
pub proof fn lemma_lex_irreflexive(a: Seq<char>)
    ensures
        !lex_lt(a, a),
    decreases a.len(),
{
    if a.len() > 0 {
        lemma_lex_irreflexive(a.drop_first());
    }
}

/// The order is transitive.
pub proof fn lemma_lex_transitive(a: Seq<char>, b: Seq<char>, c: Seq<char>)
    requires
        lex_lt(a, b),
        lex_lt(b, c),
    ensures
        lex_lt(a, c),
    decreases a.len(),
{
    if a.len() > 0 && b.len() > 0 && c.len() > 0 {
        if a[0] == b[0] && b[0] == c[0] {
            lemma_lex_transitive(a.drop_first(), b.drop_first(), c.drop_first());
        }
    }
}

/// Two distinct sequences are ordered one way or the other, and not both.
pub proof fn lemma_lex_total(a: Seq<char>, b: Seq<char>)
    ensures
        a != b ==> (lex_lt(a, b) || lex_lt(b, a)),
        !(lex_lt(a, b) && lex_lt(b, a)),
    decreases a.len(),
{
    if a.len() == 0 && b.len() == 0 {
        assert(a =~= b);
    } else if a.len() > 0 && b.len() > 0 {
        if a[0] == b[0] {
            lemma_lex_total(a.drop_first(), b.drop_first());
            if a.drop_first() == b.drop_first() {
                assert forall|i: int| 0 <= i < a.len() implies a[i] == b[i] by {
                    if i > 0 {
                        assert(a[i] == a.drop_first()[i - 1]);
                        assert(b[i] == b.drop_first()[i - 1]);
                    }
                }
                assert(a =~= b);
            }
        } else {
            vstd::utf8::char_u32_cast(a[0], a[0] as u32);
            vstd::utf8::char_u32_cast(b[0], b[0] as u32);
        }
    }
}

/// Whether `a` comes strictly before `b`.
pub fn lex_less(a: &Vec<char>, b: &Vec<char>) -> (r: bool)
    ensures
        r == lex_lt(a@, b@),
{
    let mut i: usize = 0;
    assert(a@.skip(0) =~= a@ && b@.skip(0) =~= b@);
    while i < a.len() && i < b.len() && a[i] == b[i]
        invariant
            i <= a@.len(),
            i <= b@.len(),
            a@.take(i as int) == b@.take(i as int),
            lex_lt(a@, b@) == lex_lt(a@.skip(i as int), b@.skip(i as int)),
        decreases a@.len() - i,
    {
        proof {
            let (sa, sb) = (a@.skip(i as int), b@.skip(i as int));
            assert(sa.drop_first() =~= a@.skip(i + 1));
            assert(sb.drop_first() =~= b@.skip(i + 1));
            assert(a@.take(i + 1) =~= a@.take(i as int).push(a@[i as int]));
            assert(b@.take(i + 1) =~= b@.take(i as int).push(b@[i as int]));
        }
        i = i + 1;
    }
    if i == a.len() {
        i < b.len()
    } else if i == b.len() {
        false
    } else {
        (a[i] as u32) < (b[i] as u32)
    }
}

/// Whether `a` and `b` hold the same characters.
pub fn same_chars(a: &Vec<char>, b: &Vec<char>) -> (r: bool)
    ensures
        r == (a@ == b@),
{
    proof {
        lemma_lex_total(a@, b@);
        lemma_lex_irreflexive(a@);
    }
    !lex_less(a, b) && !lex_less(b, a)
}

/// The keys of `s` rise strictly.
pub open spec fn keys_ascending<V>(s: Seq<(Vec<char>, V)>) -> bool {
    forall|i: int, j: int| 0 <= i < j < s.len() ==> lex_lt(#[trigger] s[i].0@, #[trigger] s[j].0@)
}

/// Where `key` stands or belongs among the strictly rising keys of `entries`: the index
/// of the first entry that does not come before it, and whether that entry has the key.
pub fn locate<V>(entries: &Vec<(Vec<char>, V)>, key: &Vec<char>) -> (r: (usize, bool))
    requires
        keys_ascending(entries@),
    ensures
        r.0 <= entries@.len(),
        forall|j: int| 0 <= j < r.0 ==> lex_lt(#[trigger] entries@[j].0@, key@),
        r.1 ==> r.0 < entries@.len() && entries@[r.0 as int].0@ == key@,
        !r.1 ==> forall|j: int| r.0 <= j < entries@.len() ==> lex_lt(key@, #[trigger] entries@[j].0@),
        r.1 == exists|j: int| 0 <= j < entries@.len() && #[trigger] entries@[j].0@ == key@,
{
    let mut lo: usize = 0;
    let mut hi: usize = entries.len();
    while lo < hi
        invariant
            keys_ascending(entries@),
            lo <= hi <= entries@.len(),
            forall|j: int| 0 <= j < lo ==> lex_lt(#[trigger] entries@[j].0@, key@),
            forall|j: int| hi <= j < entries@.len() ==> !lex_lt(#[trigger] entries@[j].0@, key@),
        decreases hi - lo,
    {
        let mid = lo + (hi - lo) / 2;
        if lex_less(&entries[mid].0, key) {
            proof {
                assert forall|j: int| 0 <= j <= mid implies lex_lt(#[trigger] entries@[j].0@, key@) by {
                    if j < mid {
                        lemma_lex_transitive(entries@[j].0@, entries@[mid as int].0@, key@);
                    }
                }
            }
            lo = mid + 1;
        } else {
            proof {
                assert forall|j: int| mid <= j < entries@.len() implies !lex_lt(
                    #[trigger] entries@[j].0@,
                    key@,
                ) by {
                    if j > mid && lex_lt(entries@[j].0@, key@) {
                        lemma_lex_transitive(entries@[mid as int].0@, entries@[j].0@, key@);
                    }
                }
            }
            hi = mid;
        }
    }
    let p = lo;
    if p < entries.len() && same_chars(&entries[p].0, key) {
        proof {
            assert(entries@[p as int].0@ == key@);
        }
        (p, true)
    } else {
        proof {
            if p < entries@.len() {
                lemma_lex_total(entries@[p as int].0@, key@);
                assert forall|j: int| p <= j < entries@.len() implies lex_lt(
                    key@,
                    #[trigger] entries@[j].0@,
                ) by {
                    if j > p {
                        lemma_lex_transitive(key@, entries@[p as int].0@, entries@[j].0@);
                    }
                }
            }
            assert forall|j: int| 0 <= j < entries@.len() implies #[trigger] entries@[j].0@
                != key@ by {
                if j < p {
                    lemma_lex_irreflexive(key@);
                } else {
                    lemma_lex_irreflexive(key@);
                }
            }
        }
        (p, false)
    }
}

} // verus!
