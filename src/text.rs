//! Lexicographic order on ids, sorting and joining of id lists.
use crate::model::views;
use vstd::prelude::*;

verus! {

/// `a` comes strictly before `b`, comparing code points from the left; a
/// proper prefix comes first. This is the order of `String`'s `Ord`.
pub open spec fn lex_lt(a: Seq<char>, b: Seq<char>) -> bool
    decreases a.len(),
{
    if b.len() == 0 {
        false
    } else if a.len() == 0 {
        true
    } else if a[0] != b[0] {
        a[0] < b[0]
    } else {
        lex_lt(a.drop_first(), b.drop_first())
    }
}

/// Every element comes strictly before every later one.
pub open spec fn strictly_sorted(s: Seq<Seq<char>>) -> bool {
    forall|i: int, j: int| 0 <= i < j < s.len() ==> lex_lt(#[trigger] s[i], #[trigger] s[j])
}

/// The members of a finite set of ids in ascending order.
pub open spec fn ordered(items: Set<Seq<char>>) -> Seq<Seq<char>> {
    choose|s: Seq<Seq<char>>| strictly_sorted(s) && s.to_set() == items
}

/// `s` with `x` placed before its first element that comes after `x`.
pub open spec fn insert_in_order(s: Seq<Seq<char>>, x: Seq<char>) -> Seq<Seq<char>>
    decreases s.len(),
{
    if s.len() == 0 {
        seq![x]
    } else if lex_lt(x, s[0]) {
        seq![x] + s
    } else {
        seq![s[0]] + insert_in_order(s.drop_first(), x)
    }
}

/// `s` sorted ascending, equal elements kept in their order.
pub open spec fn sorted_seq(s: Seq<Seq<char>>) -> Seq<Seq<char>>
    decreases s.len(),
{
    if s.len() == 0 {
        seq![]
    } else {
        insert_in_order(sorted_seq(s.drop_last()), s.last())
    }
}

/// The separator between the ids of a combination.
pub open spec fn delimiter() -> Seq<char> {
    seq![',']
}

/// The parts with `sep` between each two.
pub open spec fn joined(parts: Seq<Seq<char>>, sep: Seq<char>) -> Seq<char>
    decreases parts.len(),
{
    if parts.len() == 0 {
        seq![]
    } else if parts.len() == 1 {
        parts[0]
    } else {
        joined(parts.drop_last(), sep) + sep + parts.last()
    }
}

pub proof fn lemma_lex_irreflexive(a: Seq<char>)
    ensures
        !lex_lt(a, a),
    decreases a.len(),
{
    if a.len() > 0 {
        lemma_lex_irreflexive(a.drop_first());
    }
}

pub proof fn lemma_lex_transitive(a: Seq<char>, b: Seq<char>, c: Seq<char>)
    requires
        lex_lt(a, b),
        lex_lt(b, c),
    ensures
        lex_lt(a, c),
    decreases a.len(),
{
    if a.len() > 0 && a[0] == b[0] && b[0] == c[0] {
        lemma_lex_transitive(a.drop_first(), b.drop_first(), c.drop_first());
    }
}

pub proof fn lemma_lex_total(a: Seq<char>, b: Seq<char>)
    requires
        a != b,
    ensures
        lex_lt(a, b) || lex_lt(b, a),
    decreases a.len(),
{
    if a.len() > 0 && b.len() > 0 && a[0] == b[0] {
        if a.drop_first() == b.drop_first() {
            assert(a =~= seq![a[0]] + a.drop_first());
            assert(b =~= seq![b[0]] + b.drop_first());
        }
        lemma_lex_total(a.drop_first(), b.drop_first());
    } else if a.len() == 0 && b.len() == 0 {
        assert(a =~= b);
    } else if a.len() > 0 && b.len() > 0 {
        assert(a[0] < b[0] || b[0] < a[0]);
    }
}

/// A strictly sorted sequence holds each id once.
pub proof fn lemma_strictly_sorted_no_duplicates(s: Seq<Seq<char>>)
    requires
        strictly_sorted(s),
    ensures
        s.no_duplicates(),
{
    assert forall|i: int, j: int| 0 <= i < s.len() && 0 <= j < s.len() && i != j implies s[i]
        != s[j] by {
        if i < j {
            lemma_lex_irreflexive(s[i]);
        } else {
            lemma_lex_irreflexive(s[j]);
        }
    }
}

/// Two strictly sorted sequences of the same ids are equal.
pub proof fn lemma_strictly_sorted_unique(s1: Seq<Seq<char>>, s2: Seq<Seq<char>>)
    requires
        strictly_sorted(s1),
        strictly_sorted(s2),
        s1.to_set() == s2.to_set(),
    ensures
        s1 == s2,
    decreases s1.len(),
{
    if s1.len() == 0 {
        if s2.len() > 0 {
            assert(s2.to_set().contains(s2[0]));
        }
        assert(s1 =~= s2);
    } else {
        assert(s1.to_set().contains(s1[0]));
        assert(s2.len() > 0);
        assert(s2.to_set().contains(s2[0]));
        let j = choose|j: int| 0 <= j < s2.len() && s2[j] == s1[0];
        let i = choose|i: int| 0 <= i < s1.len() && s1[i] == s2[0];
        if i > 0 && j > 0 {
            lemma_lex_transitive(s1[0], s2[0], s1[0]);
            lemma_lex_irreflexive(s1[0]);
        }
        assert(s1[0] == s2[0]);
        let t1 = s1.drop_first();
        let t2 = s2.drop_first();
        lemma_strictly_sorted_no_duplicates(s1);
        lemma_strictly_sorted_no_duplicates(s2);
        assert(t1.to_set() =~= s1.to_set().remove(s1[0])) by {
            assert forall|x| t1.to_set().contains(x) implies s1.to_set().remove(s1[0]).contains(
                x,
            ) by {
                let k = choose|k: int| 0 <= k < t1.len() && t1[k] == x;
                assert(s1[k + 1] == x);
            }
            assert forall|x| s1.to_set().remove(s1[0]).contains(x) implies t1.to_set().contains(
                x,
            ) by {
                let k = choose|k: int| 0 <= k < s1.len() && s1[k] == x;
                assert(t1[k - 1] == x);
            }
        }
        assert(t2.to_set() =~= s2.to_set().remove(s2[0])) by {
            assert forall|x| t2.to_set().contains(x) implies s2.to_set().remove(s2[0]).contains(
                x,
            ) by {
                let k = choose|k: int| 0 <= k < t2.len() && t2[k] == x;
                assert(s2[k + 1] == x);
            }
            assert forall|x| s2.to_set().remove(s2[0]).contains(x) implies t2.to_set().contains(
                x,
            ) by {
                let k = choose|k: int| 0 <= k < s2.len() && s2[k] == x;
                assert(t2[k - 1] == x);
            }
        }
        assert(strictly_sorted(t1)) by {
            assert forall|a: int, b: int| 0 <= a < b < t1.len() implies lex_lt(t1[a], t1[b]) by {
                assert(t1[a] == s1[a + 1] && t1[b] == s1[b + 1]);
            }
        }
        assert(strictly_sorted(t2)) by {
            assert forall|a: int, b: int| 0 <= a < b < t2.len() implies lex_lt(t2[a], t2[b]) by {
                assert(t2[a] == s2[a + 1] && t2[b] == s2[b + 1]);
            }
        }
        lemma_strictly_sorted_unique(t1, t2);
        assert(s1 =~= seq![s1[0]] + t1);
        assert(s2 =~= seq![s2[0]] + t2);
    }
}

/// A strictly sorted sequence is the ascending order of its ids.
pub proof fn lemma_ordered(s: Seq<Seq<char>>)
    requires
        strictly_sorted(s),
    ensures
        ordered(s.to_set()) == s,
{
    let o = ordered(s.to_set());
    assert(strictly_sorted(o) && o.to_set() == s.to_set());
    lemma_strictly_sorted_unique(o, s);
}

proof fn lemma_insert_keeps_sorted(s: Seq<Seq<char>>, pos: int, x: Seq<char>)
    requires
        strictly_sorted(s),
        0 <= pos <= s.len(),
        forall|i: int| 0 <= i < pos ==> lex_lt(#[trigger] s[i], x),
        pos < s.len() ==> lex_lt(x, s[pos]),
    ensures
        strictly_sorted(s.insert(pos, x)),
{
    let t = s.insert(pos, x);
    assert forall|i: int, j: int| 0 <= i < j < t.len() implies lex_lt(t[i], t[j]) by {
        if j < pos {
            assert(t[i] == s[i] && t[j] == s[j]);
        } else if j == pos {
            assert(t[i] == s[i]);
        } else if i < pos {
            assert(t[i] == s[i] && t[j] == s[j - 1]);
            lemma_lex_transitive(s[i], x, s[pos]);
            if j - 1 > pos {
                lemma_lex_transitive(s[i], s[pos], s[j - 1]);
            }
        } else if i == pos {
            assert(t[j] == s[j - 1]);
            if j - 1 > pos {
                lemma_lex_transitive(x, s[pos], s[j - 1]);
            }
        } else {
            assert(t[i] == s[i - 1] && t[j] == s[j - 1]);
        }
    }
}

proof fn lemma_insert_in_order_at(s: Seq<Seq<char>>, pos: int, x: Seq<char>)
    requires
        0 <= pos <= s.len(),
        forall|i: int| 0 <= i < pos ==> !lex_lt(x, #[trigger] s[i]),
        pos < s.len() ==> lex_lt(x, s[pos]),
    ensures
        insert_in_order(s, x) == s.insert(pos, x),
    decreases s.len(),
{
    if s.len() == 0 {
        assert(s.insert(pos, x) =~= seq![x]);
    } else if pos == 0 {
        assert(s.insert(pos, x) =~= seq![x] + s);
    } else {
        let t = s.drop_first();
        assert forall|i: int| 0 <= i < pos - 1 implies !lex_lt(x, #[trigger] t[i]) by {
            assert(t[i] == s[i + 1]);
        }
        lemma_insert_in_order_at(t, pos - 1, x);
        assert(s.insert(pos, x) =~= seq![s[0]] + t.insert(pos - 1, x));
    }
}

/// Whether `a` comes strictly before `b`.
pub fn lex_less(a: &str, b: &str) -> (r: bool)
    ensures
        r == lex_lt(a@, b@),
{
    let n = a.unicode_len();
    let m = b.unicode_len();
    let mut i: usize = 0;
    assert(a@.skip(0) =~= a@);
    assert(b@.skip(0) =~= b@);
    while i < n && i < m
        invariant
            0 <= i <= n,
            i <= m,
            n == a@.len(),
            m == b@.len(),
            lex_lt(a@, b@) == lex_lt(a@.skip(i as int), b@.skip(i as int)),
        decreases n - i,
    {
        let ca = a.get_char(i);
        let cb = b.get_char(i);
        if ca != cb {
            return ca < cb;
        }
        assert(a@.skip(i as int).drop_first() =~= a@.skip(i + 1));
        assert(b@.skip(i as int).drop_first() =~= b@.skip(i + 1));
        i = i + 1;
    }
    i == n && i < m
}

/// Whether the two ids are the same.
pub fn same_id(a: &str, b: &str) -> (r: bool)
    ensures
        r == (a@ == b@),
{
    let n = a.unicode_len();
    let m = b.unicode_len();
    if n != m {
        return false;
    }
    let mut i: usize = 0;
    while i < n
        invariant
            0 <= i <= n,
            n == a@.len(),
            n == b@.len(),
            a@.take(i as int) == b@.take(i as int),
        decreases n - i,
    {
        if a.get_char(i) != b.get_char(i) {
            return false;
        }
        assert(a@.take(i + 1) =~= a@.take(i as int).push(a@[i as int]));
        assert(b@.take(i + 1) =~= b@.take(i as int).push(b@[i as int]));
        i = i + 1;
    }
    assert(a@.take(n as int) =~= a@);
    assert(b@.take(n as int) =~= b@);
    true
}

/// The ids in ascending order, each once.
pub fn sort_unique(v: &Vec<String>) -> (r: Vec<String>)
    ensures
        strictly_sorted(views(r@)),
        views(r@).to_set() == views(v@).to_set(),
        ordered(views(v@).to_set()) == views(r@),
{
    let mut r: Vec<String> = Vec::new();
    let mut k: usize = 0;
    while k < v.len()
        invariant
            k <= v.len(),
            strictly_sorted(views(r@)),
            views(r@).to_set() == views(v@.take(k as int)).to_set(),
        decreases v.len() - k,
    {
        let x = v[k].clone();
        let mut pos: usize = 0;
        while pos < r.len() && lex_less(r[pos].as_str(), x.as_str())
            invariant
                pos <= r.len(),
                forall|i: int| 0 <= i < pos ==> lex_lt(#[trigger] views(r@)[i], x@),
            decreases r.len() - pos,
        {
            pos = pos + 1;
        }
        let ghost before = views(r@);
        assert(views(v@.take(k + 1)) =~= views(v@.take(k as int)).push(x@));
        proof {
            views(v@.take(k as int)).lemma_push_to_set_commute(x@);
        }
        if pos < r.len() && r[pos] == x {
            assert(views(r@).to_set() =~= views(r@).to_set().insert(x@)) by {
                assert(views(r@)[pos as int] == x@);
            }
        } else {
            proof {
                if pos < r.len() {
                    assert(views(r@)[pos as int] != x@);
                    lemma_lex_total(views(r@)[pos as int], x@);
                }
                lemma_insert_keeps_sorted(before, pos as int, x@);
            }
            r.insert(pos, x);
            assert(views(r@) =~= before.insert(pos as int, x@));
            assert(views(r@).to_set() =~= before.to_set().insert(x@)) by {
                assert forall|y| views(r@).to_set().contains(y) implies before.to_set().insert(
                    x@,
                ).contains(y) by {
                    let j = choose|j: int| 0 <= j < views(r@).len() && views(r@)[j] == y;
                    if j < pos {
                        assert(before[j] == y);
                    } else if j > pos {
                        assert(before[j - 1] == y);
                    }
                }
                assert forall|y| before.to_set().insert(x@).contains(y) implies views(
                    r@,
                ).to_set().contains(y) by {
                    if y == x@ {
                        assert(views(r@)[pos as int] == y);
                    } else {
                        let j = choose|j: int| 0 <= j < before.len() && before[j] == y;
                        if j < pos {
                            assert(views(r@)[j] == y);
                        } else {
                            assert(views(r@)[j + 1] == y);
                        }
                    }
                }
            }
        }
        k = k + 1;
    }
    assert(v@.take(v.len() as int) =~= v@);
    proof {
        lemma_ordered(views(r@));
    }
    r
}

/// The ids sorted ascending, repeated ids kept.
pub fn sort_ascending(v: &Vec<String>) -> (r: Vec<String>)
    ensures
        views(r@) == sorted_seq(views(v@)),
{
    let mut r: Vec<String> = Vec::new();
    let mut k: usize = 0;
    while k < v.len()
        invariant
            k <= v.len(),
            views(r@) == sorted_seq(views(v@.take(k as int))),
        decreases v.len() - k,
    {
        let x = v[k].clone();
        let mut pos: usize = 0;
        while pos < r.len() && !lex_less(x.as_str(), r[pos].as_str())
            invariant
                pos <= r.len(),
                forall|i: int| 0 <= i < pos ==> !lex_lt(x@, #[trigger] views(r@)[i]),
            decreases r.len() - pos,
        {
            pos = pos + 1;
        }
        let ghost before = views(r@);
        proof {
            lemma_insert_in_order_at(before, pos as int, x@);
            let t = views(v@.take(k + 1));
            assert(t.drop_last() =~= views(v@.take(k as int)));
            assert(t.last() == x@);
        }
        r.insert(pos, x);
        assert(views(r@) =~= before.insert(pos as int, x@));
        k = k + 1;
    }
    assert(v@.take(v.len() as int) =~= v@);
    r
}

/// The ids with a comma between each two.
pub fn join_ids(parts: &Vec<String>) -> (r: String)
    ensures
        r@ == joined(views(parts@), delimiter()),
{
    let sep = ",";
    proof {
        reveal_strlit(",");
    }
    assert(sep@ == delimiter());
    let mut out = String::new();
    let mut i: usize = 0;
    while i < parts.len()
        invariant
            i <= parts.len(),
            sep@ == delimiter(),
            out@ == joined(views(parts@.take(i as int)), delimiter()),
        decreases parts.len() - i,
    {
        let ghost t = views(parts@.take(i + 1));
        assert(t.drop_last() =~= views(parts@.take(i as int)));
        if i > 0 {
            out.append(sep);
        } else {
            assert(views(parts@.take(i as int)) =~= seq![]);
        }
        out.append(parts[i].as_str());
        i = i + 1;
    }
    assert(parts@.take(parts.len() as int) =~= parts@);
    out
}

} // verus!
