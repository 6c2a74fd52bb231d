//! The order of names: lexicographic by Unicode code point, which is the
//! byte order of their UTF-8 encodings.
use vstd::prelude::*;

verus! {

/// No name sorts before one that comes earlier.
pub open spec fn ascending(names: Seq<Seq<char>>) -> bool {
    forall|i: int, j: int| 0 <= i < j < names.len() ==> !text_lt(#[trigger] names[j], #[trigger] names[i])
}

/// `a` sorts strictly before `b`.
pub open spec fn text_lt(a: Seq<char>, b: Seq<char>) -> bool
    decreases a.len(),
{
    if a.len() == 0 {
        b.len() > 0
    } else if b.len() == 0 {
        false
    } else if a[0] != b[0] {
        (a[0] as u32) < (b[0] as u32)
    } else {
        text_lt(a.drop_first(), b.drop_first())
    }
}

pub proof fn lemma_text_lt_irreflexive(a: Seq<char>)
    ensures
        !text_lt(a, a),
    decreases a.len(),
{
    if a.len() > 0 {
        lemma_text_lt_irreflexive(a.drop_first());
    }
}

pub proof fn lemma_text_lt_transitive(a: Seq<char>, b: Seq<char>, c: Seq<char>)
    requires
        text_lt(a, b),
        text_lt(b, c),
    ensures
        text_lt(a, c),
    decreases a.len(),
{
    if a.len() > 0 && b.len() > 0 && c.len() > 0 {
        if a[0] == b[0] && b[0] == c[0] {
            lemma_text_lt_transitive(a.drop_first(), b.drop_first(), c.drop_first());
        }
    }
}

/// Where name `n` goes among names in order: after every name that does
/// not sort after it.
pub open spec fn name_pos(names: Seq<Seq<char>>, n: Seq<char>) -> int
    decreases names.len(),
{
    if names.len() == 0 {
        0
    } else if text_lt(n, names[0]) {
        0
    } else {
        1 + name_pos(names.drop_first(), n)
    }
}

pub proof fn lemma_name_pos(names: Seq<Seq<char>>, n: Seq<char>, p: int)
    requires
        0 <= p <= names.len(),
        forall|k: int| 0 <= k < p ==> !text_lt(n, #[trigger] names[k]),
        p == names.len() || text_lt(n, names[p]),
    ensures
        name_pos(names, n) == p,
    decreases names.len(),
{
    if names.len() > 0 && p > 0 {
        assert(!text_lt(n, names[0]));
        let rest = names.drop_first();
        assert forall|k: int| 0 <= k < p - 1 implies !text_lt(n, #[trigger] rest[k]) by {
            assert(rest[k] == names[k + 1]);
        }
        lemma_name_pos(rest, n, p - 1);
    }
}

/// Inserting a name at its place keeps names in order.
pub proof fn lemma_insert_ascending(names: Seq<Seq<char>>, n: Seq<char>, p: int)
    requires
        ascending(names),
        0 <= p <= names.len(),
        forall|k: int| 0 <= k < p ==> !text_lt(n, #[trigger] names[k]),
        p == names.len() || text_lt(n, names[p]),
    ensures
        ascending(names.insert(p, n)),
{
    let m = names.insert(p, n);
    assert forall|i: int, j: int| 0 <= i < j < m.len() implies !text_lt(#[trigger] m[j], #[trigger] m[i]) by {
        if i == p {
            assert(m[j] == names[j - 1]);
            if text_lt(m[j], n) {
                lemma_text_lt_transitive(names[j - 1], n, names[p]);
                if j - 1 > p {
                    assert(!text_lt(names[j - 1], names[p]));
                } else {
                    lemma_text_lt_irreflexive(names[p]);
                }
            }
        } else if j == p {
            assert(m[i] == names[i]);
        } else {
            let oi = if i < p {
                i
            } else {
                i - 1
            };
            let oj = if j < p {
                j
            } else {
                j - 1
            };
            assert(m[i] == names[oi] && m[j] == names[oj]);
        }
    }
}

/// Whether `a` sorts strictly before `b`.
pub fn text_less(a: &str, b: &str) -> (r: bool)
    ensures
        r == text_lt(a@, b@),
{
    let la = a.unicode_len();
    let lb = b.unicode_len();
    let mut i: usize = 0;
    assert(a@.subrange(0, la as int) =~= a@);
    assert(b@.subrange(0, lb as int) =~= b@);
    while i < la && i < lb
        invariant
            i <= la,
            i <= lb,
            la == a@.len(),
            lb == b@.len(),
            text_lt(a@, b@) == text_lt(a@.subrange(i as int, la as int), b@.subrange(i as int, lb as int)),
        decreases la - i,
    {
        let ca = a.get_char(i);
        let cb = b.get_char(i);
        let ghost sa = a@.subrange(i as int, la as int);
        let ghost sb = b@.subrange(i as int, lb as int);
        assert(sa[0] == ca && sb[0] == cb);
        if ca != cb {
            return (ca as u32) < (cb as u32);
        }
        assert(sa.drop_first() =~= a@.subrange(i + 1, la as int));
        assert(sb.drop_first() =~= b@.subrange(i + 1, lb as int));
        i = i + 1;
    }
    i == la && i < lb
}

} // verus!
