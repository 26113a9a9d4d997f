//! String helpers the two components share: the file name after the last
//! path separator, and a verified lexicographic sort for the duplicate
//! report.

use vstd::prelude::*;
use vstd::string::*;
use vstd::relations::{sorted_by, total_ordering};
use vstd::multiset::Multiset;

verus! {

/// The characters after the last `/` of `s`; all of `s` when it has none.
pub open spec fn after_last_sep(s: Seq<char>) -> Seq<char>
    decreases s.len(),
{
    if s.len() == 0 {
        s
    } else if s.last() == '/' {
        Seq::empty()
    } else {
        after_last_sep(s.drop_last()).push(s.last())
    }
}

/// When nothing at or after `cut` is a `/` and `cut` sits right after one
/// (or at the start), the name after the last separator is the suffix
/// from `cut`.
proof fn lemma_after_last_sep_suffix(s: Seq<char>, cut: int)
    requires
        0 <= cut <= s.len(),
        forall|k: int| cut <= k < s.len() ==> s[k] != '/',
        cut == 0 || s[cut - 1] == '/',
    ensures
        after_last_sep(s) == s.subrange(cut, s.len() as int),
    decreases s.len(),
{
    if s.len() == cut {
        if cut == 0 {
            assert(s.len() == 0);
            assert(s.subrange(0, 0) =~= s);
        } else {
            assert(s.last() == '/');
            assert(s.subrange(cut, s.len() as int) =~= Seq::<char>::empty());
        }
    } else {
        assert(s.last() != '/');
        let d = s.drop_last();
        assert(forall|k: int| cut <= k < d.len() ==> d[k] == s[k] && s[k] != '/');
        assert(cut == 0 || d[cut - 1] == s[cut - 1]);
        lemma_after_last_sep_suffix(d, cut);
        assert(d.subrange(cut, d.len() as int).push(s.last()) =~= s.subrange(
            cut,
            s.len() as int,
        ));
    }
}

/// The file name of a path: what follows the final `/`, or the whole
/// path when it has none.
pub fn base_name(s: &str) -> (r: String)
    ensures
        r@ == after_last_sep(s@),
{
    let n = s.unicode_len();
    let cut = find_cut(s, n);
    proof {
        lemma_after_last_sep_suffix(s@, cut as int);
    }
    let tail = s.substring_char(cut, n);
    String::from_str(tail)
}

/// The position right after the last `/` of `s`, or `0` when it has none.
fn find_cut(s: &str, n: usize) -> (cut: usize)
    requires
        n == s@.len(),
    ensures
        cut <= n,
        forall|k: int| cut <= k < s@.len() ==> s@[k] != '/',
        cut == 0 || s@[cut - 1] == '/',
{
    let mut cut: usize = n;
    loop
        invariant
            cut <= n,
            n == s@.len(),
            forall|k: int| cut <= k < s@.len() ==> s@[k] != '/',
        decreases cut,
    {
        if cut == 0 {
            return cut;
        }
        if s.get_char(cut - 1) == '/' {
            return cut;
        }
        cut = cut - 1;
    }
}

/// Lexicographic order on character sequences, by code point, shorter
/// prefixes first: the order in which the duplicate report is listed.
pub open spec fn lex_leq(a: Seq<char>, b: Seq<char>) -> bool
    decreases a.len(),
{
    if a.len() == 0 {
        true
    } else if b.len() == 0 {
        false
    } else if a[0] < b[0] {
        true
    } else if a[0] > b[0] {
        false
    } else {
        lex_leq(a.drop_first(), b.drop_first())
    }
}

pub open spec fn lex_leq_fn() -> spec_fn(Seq<char>, Seq<char>) -> bool {
    |a: Seq<char>, b: Seq<char>| lex_leq(a, b)
}

proof fn lemma_lex_refl(a: Seq<char>)
    ensures
        lex_leq(a, a),
    decreases a.len(),
{
    if a.len() > 0 {
        lemma_lex_refl(a.drop_first());
    }
}

proof fn lemma_lex_total(a: Seq<char>, b: Seq<char>)
    ensures
        lex_leq(a, b) || lex_leq(b, a),
    decreases a.len(),
{
    if a.len() > 0 && b.len() > 0 && !(a[0] < b[0]) && !(a[0] > b[0]) {
        lemma_lex_total(a.drop_first(), b.drop_first());
    }
}

proof fn lemma_lex_antisym(a: Seq<char>, b: Seq<char>)
    requires
        lex_leq(a, b),
        lex_leq(b, a),
    ensures
        a == b,
    decreases a.len(),
{
    if a.len() == 0 {
        assert(b.len() == 0);
        assert(a =~= b);
    } else {
        assert(b.len() > 0);
        assert(a[0] == b[0]);
        lemma_lex_antisym(a.drop_first(), b.drop_first());
        assert(a =~= seq![a[0]] + a.drop_first());
        assert(b =~= seq![b[0]] + b.drop_first());
    }
}

proof fn lemma_lex_trans(a: Seq<char>, b: Seq<char>, c: Seq<char>)
    requires
        lex_leq(a, b),
        lex_leq(b, c),
    ensures
        lex_leq(a, c),
    decreases a.len(),
{
    if a.len() > 0 {
        assert(b.len() > 0);
        assert(c.len() > 0);
        if a[0] == b[0] && b[0] == c[0] {
            lemma_lex_trans(a.drop_first(), b.drop_first(), c.drop_first());
        }
    }
}

/// Lexicographic order is a total order, so a sorted report is unique.
pub proof fn lemma_lex_total_ordering()
    ensures
        total_ordering(lex_leq_fn()),
{
    let leq = lex_leq_fn();
    assert forall|a: Seq<char>| #[trigger] leq(a, a) by {
        lemma_lex_refl(a);
    }
    assert forall|a: Seq<char>, b: Seq<char>| #[trigger] leq(a, b) && #[trigger] leq(b, a)
        implies a == b by {
        lemma_lex_antisym(a, b);
    }
    assert forall|a: Seq<char>, b: Seq<char>, c: Seq<char>|
        #[trigger] leq(a, b) && #[trigger] leq(b, c) implies leq(a, c) by {
        lemma_lex_trans(a, b, c);
    }
    assert forall|a: Seq<char>, b: Seq<char>| #![trigger leq(a, b)] true implies leq(a, b) || leq(
        b,
        a,
    ) by {
        lemma_lex_total(a, b);
    }
}

/// When the first `k` characters agree, the order is decided past them.
proof fn lemma_lex_skip(a: Seq<char>, b: Seq<char>, k: int)
    requires
        0 <= k <= a.len(),
        k <= b.len(),
        forall|m: int| 0 <= m < k ==> a[m] == b[m],
    ensures
        lex_leq(a, b) == lex_leq(a.skip(k), b.skip(k)),
    decreases k,
{
    if k > 0 {
        assert(a.len() > 0);
        assert(b.len() > 0);
        assert(a[0] == b[0]);
        assert(forall|m: int|
            0 <= m < k - 1 ==> a.drop_first()[m] == a[m + 1] && b.drop_first()[m] == b[m + 1]);
        lemma_lex_skip(a.drop_first(), b.drop_first(), k - 1);
        assert(a.drop_first().skip(k - 1) =~= a.skip(k));
        assert(b.drop_first().skip(k - 1) =~= b.skip(k));
    } else {
        assert(a.skip(0) =~= a);
        assert(b.skip(0) =~= b);
    }
}

/// Decides `lex_leq` on two strings.
pub fn str_lex_leq(a: &str, b: &str) -> (r: bool)
    ensures
        r == lex_leq(a@, b@),
{
    let na = a.unicode_len();
    let nb = b.unicode_len();
    let mut i: usize = 0;
    loop
        invariant
            i <= na,
            i <= nb,
            na == a@.len(),
            nb == b@.len(),
            forall|m: int| 0 <= m < i ==> a@[m] == b@[m],
        decreases na - i,
    {
        proof {
            lemma_lex_skip(a@, b@, i as int);
        }
        if i >= na {
            assert(a@.skip(i as int).len() == 0);
            return true;
        }
        if i >= nb {
            assert(b@.skip(i as int).len() == 0);
            assert(a@.skip(i as int).len() > 0);
            return false;
        }
        let ca = a.get_char(i);
        let cb = b.get_char(i);
        proof {
            assert(a@.skip(i as int)[0] == a@[i as int]);
            assert(b@.skip(i as int)[0] == b@[i as int]);
        }
        if ca < cb {
            return true;
        }
        if cb < ca {
            return false;
        }
        i = i + 1;
    }
}

/// The views of a vector of strings.
pub open spec fn views(v: Seq<String>) -> Seq<Seq<char>> {
    v.map_values(|s: String| s@)
}

/// Inserting anywhere adds exactly one occurrence to the multiset.
proof fn lemma_insert_multiset(s: Seq<Seq<char>>, pos: int, x: Seq<char>)
    requires
        0 <= pos <= s.len(),
    ensures
        s.insert(pos, x).to_multiset() == s.to_multiset().insert(x),
{
    broadcast use vstd::seq_lib::group_to_multiset_ensures;

    let left = s.subrange(0, pos);
    let right = s.subrange(pos, s.len() as int);
    assert(s =~= left + right);
    assert(s.insert(pos, x) =~= left + (seq![x] + right));
    vstd::seq_lib::lemma_multiset_commutative(left, right);
    vstd::seq_lib::lemma_multiset_commutative(left, seq![x] + right);
    vstd::seq_lib::lemma_multiset_commutative(seq![x], right);
    assert(seq![x] =~= Seq::<Seq<char>>::empty().push(x));
    assert(seq![x].to_multiset() == Multiset::<Seq<char>>::empty().insert(x));
    assert(s.insert(pos, x).to_multiset() =~= s.to_multiset().insert(x));
}

/// The place where `x` belongs in the sorted report: everything before
/// it is at most `x`, and `x` is at most what it lands on.
fn find_insert_pos(out: &Vec<String>, x: &String) -> (pos: usize)
    ensures
        pos <= out@.len(),
        forall|m: int| 0 <= m < pos ==> lex_leq(#[trigger] views(out@)[m], x@),
        pos < out@.len() ==> lex_leq(x@, views(out@)[pos as int]),
{
    let mut pos: usize = 0;
    loop
        invariant
            pos <= out@.len(),
            forall|m: int| 0 <= m < pos ==> lex_leq(#[trigger] views(out@)[m], x@),
        decreases out@.len() - pos,
    {
        if pos >= out.len() {
            return pos;
        }
        if str_lex_leq(x.as_str(), out[pos].as_str()) {
            return pos;
        }
        proof {
            lemma_lex_total(x@, views(out@)[pos as int]);
        }
        pos = pos + 1;
    }
}

/// Puts `x` where it keeps `out` sorted.
fn insert_sorted(out: &mut Vec<String>, x: String)
    requires
        sorted_by(views(old(out)@), lex_leq_fn()),
    ensures
        sorted_by(views(final(out)@), lex_leq_fn()),
        views(final(out)@).to_multiset() == views(old(out)@).to_multiset().insert(x@),
{
    let pos = find_insert_pos(out, &x);
    proof {
        lemma_insert_multiset(views(out@), pos as int, x@);
        assert(views(out@).insert(pos as int, x@) =~= views(out@.insert(pos as int, x)));
    }
    let ghost pre = views(out@);
    let ghost leq = lex_leq_fn();
    out.insert(pos, x);
    proof {
        let now = views(out@);
        assert(now =~= pre.insert(pos as int, x@));
        assert forall|i: int, j: int| 0 <= i < j < now.len() implies #[trigger] leq(
            now[i],
            now[j],
        ) by {
            if j < pos {
                assert(now[i] == pre[i] && now[j] == pre[j]);
            } else if i > pos {
                assert(now[i] == pre[i - 1] && now[j] == pre[j - 1]);
            } else if i < pos && j == pos {
                assert(now[i] == pre[i] && now[j] == x@);
            } else if i < pos && j > pos {
                assert(now[i] == pre[i] && now[j] == pre[j - 1]);
            } else if i == pos && j > pos {
                assert(now[i] == x@ && now[j] == pre[j - 1]);
                if pos < pre.len() {
                    assert(leq(x@, pre[pos as int]));
                    if j - 1 == pos {
                    } else {
                        assert(leq(pre[pos as int], pre[j - 1]));
                        lemma_lex_trans(x@, pre[pos as int], pre[j - 1]);
                    }
                }
            }
        }
    }
}

/// Sorts the report lines lexicographically. The result is the unique
/// sorted arrangement of the input.
pub fn sort_strings(v: Vec<String>) -> (r: Vec<String>)
    ensures
        sorted_by(views(r@), lex_leq_fn()),
        views(r@).to_multiset() == views(v@).to_multiset(),
{
    broadcast use vstd::seq_lib::group_to_multiset_ensures;

    let ghost all = views(v@);
    let mut out: Vec<String> = Vec::new();
    let mut i: usize = 0;
    proof {
        assert(views(out@) =~= Seq::<Seq<char>>::empty());
        assert(all.take(0int) =~= Seq::<Seq<char>>::empty());
        assert(views(out@).to_multiset() =~= all.take(0int).to_multiset());
    }
    while i < v.len()
        invariant
            i <= v@.len(),
            all == views(v@),
            sorted_by(views(out@), lex_leq_fn()),
            views(out@).to_multiset() == all.take(i as int).to_multiset(),
        decreases v@.len() - i,
    {
        let x = v[i].clone();
        proof {
            assert(x@ == all[i as int]);
            assert(all.take(i + 1).drop_last() =~= all.take(i as int));
            assert(all.take(i + 1) =~= all.take(i as int).push(all[i as int]));
            all.take(i as int).to_multiset_ensures();
            assert(all.take(i as int).push(all[i as int]).to_multiset() =~= all.take(
                i as int,
            ).to_multiset().insert(all[i as int]));
        }
        insert_sorted(&mut out, x);
        i = i + 1;
    }
    proof {
        assert(all.take(v@.len() as int) =~= all);
    }
    out
}

} // verus!
