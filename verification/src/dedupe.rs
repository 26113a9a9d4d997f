//! The duplicate scanner: every catalog entry is hashed, entries whose
//! bytes share a SHA-256 digest form a duplicate group, and each group's
//! second and later members are reported against the first-seen member
//! and, on request, scheduled for a marking rename. The caller reads the
//! file bytes (failing the whole scan on any unreadable entry) and
//! applies the renames; everything decided here is verified.

use vstd::prelude::*;
use vstd::string::*;
use vstd::relations::sorted_by;

verus! {

use crate::outside::{sha256_hex, sha256_hex_of};
use crate::strutil::{views, after_last_sep, base_name, sort_strings, lex_leq_fn};
use crate::image_list::ImageList;

/// The digest, as lower-case hex, of each file's bytes, in catalog order.
pub open spec fn hashes_of(contents: Seq<Vec<u8>>) -> Seq<Seq<char>> {
    contents.map_values(|v: Vec<u8>| sha256_hex_of(v@))
}

/// The file name of each catalog entry, in catalog order.
pub open spec fn base_names(entries: Seq<Seq<char>>) -> Seq<Seq<char>> {
    entries.map_values(|e: Seq<char>| after_last_sep(e))
}

/// Slot `i` repeats a digest already seen at some earlier slot.
pub open spec fn dup_at(hashes: Seq<Seq<char>>, i: int) -> bool {
    exists|j: int| 0 <= j < i && hashes[j] == hashes[i]
}

/// The first slot at or after `j` bearing digest `h`; `hashes.len()`
/// when none does.
pub open spec fn first_index_from(hashes: Seq<Seq<char>>, h: Seq<char>, j: int) -> int
    decreases hashes.len() - j,
{
    if j < 0 || j >= hashes.len() {
        j
    } else if hashes[j] == h {
        j
    } else {
        first_index_from(hashes, h, j + 1)
    }
}

/// The first slot bearing digest `h`.
pub open spec fn first_index(hashes: Seq<Seq<char>>, h: Seq<char>) -> int {
    first_index_from(hashes, h, 0)
}

/// The separator between the two names of a reported pair.
pub open spec fn pair_sep() -> Seq<char> {
    seq![' ', '<', '=', '>', ' ']
}

/// One reported duplicate: the first-seen name, then the repeating name.
pub open spec fn pair_desc(first: Seq<char>, second: Seq<char>) -> Seq<char> {
    first + pair_sep() + second
}

/// The suffix appended to a duplicate's path when marking is requested.
pub open spec fn dup_suffix() -> Seq<char> {
    seq!['.', 'D', 'U', 'P']
}

/// The report lines for the first `n` slots, in scan order, one for
/// each repeating slot: the name first seen with that digest against
/// the repeating slot's own name.
pub open spec fn dup_pairs(names: Seq<Seq<char>>, hashes: Seq<Seq<char>>, n: int) -> Seq<Seq<char>>
    decreases n,
{
    if n <= 0 {
        Seq::empty()
    } else {
        let rest = dup_pairs(names, hashes, n - 1);
        if dup_at(hashes, n - 1) {
            rest.push(pair_desc(names[first_index(hashes, hashes[n - 1])], names[n - 1]))
        } else {
            rest
        }
    }
}

/// The renames for the first `n` slots when marking is requested: each
/// repeating slot's path, to the same path with the marker suffix.
/// First-seen slots are never renamed.
pub open spec fn rename_pairs(entries: Seq<Seq<char>>, hashes: Seq<Seq<char>>, n: int) -> Seq<
    (Seq<char>, Seq<char>),
>
    decreases n,
{
    if n <= 0 {
        Seq::empty()
    } else {
        let rest = rename_pairs(entries, hashes, n - 1);
        if dup_at(hashes, n - 1) {
            rest.push((entries[n - 1], entries[n - 1] + dup_suffix()))
        } else {
            rest
        }
    }
}

/// The views of a vector of string pairs.
pub open spec fn pair_views(v: Seq<(String, String)>) -> Seq<(Seq<char>, Seq<char>)> {
    v.map_values(|p: (String, String)| (p.0@, p.1@))
}

/// What a scan returns: the sorted report lines, and the renames to
/// apply (empty unless marking was requested).
pub struct ScanReport {
    pub dupes: Vec<String>,
    pub renames: Vec<(String, String)>,
}

/// The first slot bearing `h` lies at or before any slot bearing `h`,
/// bears `h` itself, and nothing earlier does.
proof fn lemma_first_from(hashes: Seq<Seq<char>>, h: Seq<char>, l: int, j0: int)
    requires
        0 <= l <= j0 < hashes.len(),
        hashes[j0] == h,
    ensures
        l <= first_index_from(hashes, h, l) <= j0,
        hashes[first_index_from(hashes, h, l)] == h,
        forall|m: int| l <= m < first_index_from(hashes, h, l) ==> hashes[m] != h,
    decreases j0 - l,
{
    if hashes[l] != h {
        lemma_first_from(hashes, h, l + 1, j0);
    }
}

fn index_find(index: &Vec<(String, String)>, h: &String) -> (r: Option<String>)
    ensures
        match r {
            Some(name) => exists|k: int|
                0 <= k < index@.len() && (#[trigger] index@[k]).0@ == h@ && index@[k].1@ == name@,
            None => forall|k: int| 0 <= k < index@.len() ==> (#[trigger] index@[k]).0@ != h@,
        },
{
    let mut i: usize = 0;
    while i < index.len()
        invariant
            i <= index@.len(),
            forall|k: int| 0 <= k < i ==> (#[trigger] index@[k]).0@ != h@,
        decreases index@.len() - i,
    {
        if index[i].0.eq(h) {
            let name = index[i].1.clone();
            proof {
                assert(index@[i as int].0@ == h@ && index@[i as int].1@ == name@);
            }
            return Some(name);
        }
        i = i + 1;
    }
    None
}

/// Every index entry pairs a digest seen at some first-occurrence slot
/// before `i` with that slot's file name.
#[verifier::opaque]
pub open spec fn index_sound(
    index: Seq<(String, String)>,
    hs: Seq<Seq<char>>,
    bn: Seq<Seq<char>>,
    i: int,
) -> bool {
    forall|k: int|
        0 <= k < index.len() ==> exists|j: int|
            0 <= j < i && hs[j] == (#[trigger] index[k]).0@ && !dup_at(hs, j) && index[k].1@
                == bn[j]
}

/// Every digest seen before `i` has an index entry.
#[verifier::opaque]
pub open spec fn index_complete(index: Seq<(String, String)>, hs: Seq<Seq<char>>, i: int) -> bool {
    forall|j: int| #![trigger hs[j]]
        0 <= j < i ==> exists|k: int| 0 <= k < index.len() && (#[trigger] index[k]).0@ == hs[j]
}

/// The scanner's running index is faithful for the first `i` slots.
pub open spec fn index_ok(
    index: Seq<(String, String)>,
    hs: Seq<Seq<char>>,
    bn: Seq<Seq<char>>,
    i: int,
) -> bool {
    index_sound(index, hs, bn, i) && index_complete(index, hs, i)
}

/// An empty index is faithful for zero slots.
proof fn lemma_index_empty(index: Seq<(String, String)>, hs: Seq<Seq<char>>, bn: Seq<Seq<char>>)
    requires
        index.len() == 0,
    ensures
        index_ok(index, hs, bn, 0),
{
    reveal(index_sound);
    reveal(index_complete);
}

/// A hit in the index means slot `i` repeats an earlier digest, and the
/// stored name is the first-seen name of that digest's group.
proof fn lemma_index_found(
    index: Seq<(String, String)>,
    hs: Seq<Seq<char>>,
    bn: Seq<Seq<char>>,
    i: int,
    first: Seq<char>,
)
    requires
        index_ok(index, hs, bn, i),
        0 <= i < hs.len(),
        exists|k: int|
            0 <= k < index.len() && (#[trigger] index[k]).0@ == hs[i] && index[k].1@ == first,
    ensures
        dup_at(hs, i),
        first == bn[first_index(hs, hs[i])],
        index_ok(index, hs, bn, i + 1),
{
    let k = choose|k: int|
        0 <= k < index.len() && (#[trigger] index[k]).0@ == hs[i] && index[k].1@ == first;
    assert(dup_at(hs, i) && first == bn[first_index(hs, hs[i])]) by {
        reveal(index_sound);
        let j = choose|j: int|
            0 <= j < i && hs[j] == (#[trigger] index[k]).0@ && !dup_at(hs, j) && index[k].1@
                == bn[j];
        assert(hs[j] == hs[i]);
        assert(dup_at(hs, i));
        lemma_first_from(hs, hs[i], 0, j);
        let f = first_index(hs, hs[i]);
        if f < j {
            assert(hs[f] == hs[j]);
            assert(false);
        }
    }
    assert(index_sound(index, hs, bn, i + 1)) by {
        reveal(index_sound);
        assert forall|k2: int| 0 <= k2 < index.len() implies exists|j: int|
            0 <= j < i + 1 && hs[j] == (#[trigger] index[k2]).0@ && !dup_at(hs, j) && index[k2].1@
                == bn[j] by {
            let j = choose|j: int|
                0 <= j < i && hs[j] == (#[trigger] index[k2]).0@ && !dup_at(hs, j) && index[k2].1@
                    == bn[j];
            assert(0 <= j < i + 1 && hs[j] == index[k2].0@ && !dup_at(hs, j) && index[k2].1@
                == bn[j]);
        }
    }
    assert(index_complete(index, hs, i + 1)) by {
        reveal(index_complete);
        assert forall|m: int| #![trigger hs[m]] 0 <= m < i + 1 implies exists|k2: int|
            0 <= k2 < index.len() && (#[trigger] index[k2]).0@ == hs[m] by {
            if m == i {
                assert(index[k].0@ == hs[m]);
            }
        }
    }
}

/// A miss in the index means slot `i` is a first occurrence; adding its
/// digest and name keeps the index faithful.
proof fn lemma_index_missing(
    index: Seq<(String, String)>,
    p: (String, String),
    hs: Seq<Seq<char>>,
    bn: Seq<Seq<char>>,
    i: int,
)
    requires
        index_ok(index, hs, bn, i),
        0 <= i < hs.len(),
        forall|k: int| 0 <= k < index.len() ==> (#[trigger] index[k]).0@ != hs[i],
        p.0@ == hs[i],
        p.1@ == bn[i],
    ensures
        !dup_at(hs, i),
        index_ok(index.push(p), hs, bn, i + 1),
{
    let post = index.push(p);
    assert(!dup_at(hs, i)) by {
        reveal(index_complete);
        if dup_at(hs, i) {
            let j = choose|j: int| 0 <= j < i && #[trigger] hs[j] == hs[i];
            let k = choose|k: int| 0 <= k < index.len() && (#[trigger] index[k]).0@ == hs[j];
            assert(false);
        }
    }
    assert(index_sound(post, hs, bn, i + 1)) by {
        reveal(index_sound);
        assert forall|k: int| 0 <= k < post.len() implies exists|j: int|
            0 <= j < i + 1 && hs[j] == (#[trigger] post[k]).0@ && !dup_at(hs, j) && post[k].1@
                == bn[j] by {
            if k < post.len() - 1 {
                assert(post[k] == index[k]);
                let j = choose|j: int|
                    0 <= j < i && hs[j] == (#[trigger] index[k]).0@ && !dup_at(hs, j)
                        && index[k].1@ == bn[j];
                assert(0 <= j < i + 1 && hs[j] == post[k].0@ && !dup_at(hs, j) && post[k].1@
                    == bn[j]);
            } else {
                assert(post[k] == p);
                assert(hs[i] == post[k].0@ && !dup_at(hs, i) && post[k].1@ == bn[i]);
            }
        }
    }
    assert(index_complete(post, hs, i + 1)) by {
        reveal(index_complete);
        assert forall|j: int| #![trigger hs[j]] 0 <= j < i + 1 implies exists|k: int|
            0 <= k < post.len() && (#[trigger] post[k]).0@ == hs[j] by {
            if j < i {
                let hj = hs[j];
                let k = choose|k: int| 0 <= k < index.len() && (#[trigger] index[k]).0@ == hj;
                assert(post[k] == index[k]);
                assert(post[k].0@ == hs[j]);
            } else {
                assert(post[post.len() - 1].0@ == hs[j]);
            }
        }
    }
}

impl ImageList {
    /// Scans the catalog for byte-identical files, given each entry's
    /// full content in catalog order. Two entries are duplicates exactly
    /// when their SHA-256 digests agree; any collision is accepted as
    /// true duplication. The report lists one line per repeating slot,
    /// sorted lexicographically; with `mark` set, each repeating slot's
    /// path is scheduled to be renamed with the marker suffix, the
    /// first-seen slot of each group never.
    #[verifier::rlimit(100)]
    pub fn simple_dedupe(&self, contents: &Vec<Vec<u8>>, mark: bool) -> (r: ScanReport)
        requires
            contents@.len() == self.entries().len(),
        ensures
            ({
                let hs = hashes_of(contents@);
                let bn = base_names(self.entries());
                let n = self.entries().len() as int;
                &&& sorted_by(views(r.dupes@), lex_leq_fn())
                &&& views(r.dupes@).to_multiset() == dup_pairs(bn, hs, n).to_multiset()
                &&& pair_views(r.renames@) == if mark {
                    rename_pairs(self.entries(), hs, n)
                } else {
                    Seq::<(Seq<char>, Seq<char>)>::empty()
                }
            }),
    {
        let ghost hs = hashes_of(contents@);
        let ghost bn = base_names(self.entries());
        let ghost ent = self.entries();
        let files = self.filenames();
        let n = files.len();
        let mut index: Vec<(String, String)> = Vec::new();
        let mut dupes: Vec<String> = Vec::new();
        let mut renames: Vec<(String, String)> = Vec::new();
        let mut i: usize = 0;
        proof {
            assert(views(dupes@) =~= Seq::<Seq<char>>::empty());
            assert(pair_views(renames@) =~= Seq::<(Seq<char>, Seq<char>)>::empty());
            lemma_index_empty(index@, hs, bn);
        }
        while i < n
            invariant
                i <= n,
                n == ent.len(),
                ent == self.entries(),
                views(files@) == ent,
                hs == hashes_of(contents@),
                bn == base_names(ent),
                contents@.len() == ent.len(),
                index_ok(index@, hs, bn, i as int),
                views(dupes@) == dup_pairs(bn, hs, i as int),
                pair_views(renames@) == if mark {
                    rename_pairs(ent, hs, i as int)
                } else {
                    Seq::<(Seq<char>, Seq<char>)>::empty()
                },
            decreases n - i,
        {
            let fname = base_name(files[i].as_str());
            let h = sha256_hex(&contents[i]);
            proof {
                assert(hs[i as int] == sha256_hex_of(contents@[i as int]@));
                assert(bn[i as int] == after_last_sep(ent[i as int]));
                assert(ent[i as int] == files@[i as int]@);
            }
            match index_find(&index, &h) {
                Some(first) => {
                    proof {
                        lemma_index_found(index@, hs, bn, i as int, first@);
                    }
                    let mut d = first;
                    d.append(" <=> ");
                    d.append(fname.as_str());
                    proof {
                        reveal_strlit(" <=> ");
                        assert(" <=> "@ =~= pair_sep());
                        assert(d@ == pair_desc(bn[first_index(hs, hs[i as int])], bn[i as int]));
                        assert(views(dupes@.push(d)) =~= views(dupes@).push(d@));
                        assert(dup_pairs(bn, hs, i + 1) == dup_pairs(bn, hs, i as int).push(d@));
                    }
                    dupes.push(d);
                    if mark {
                        let path = files[i].clone();
                        let mut marked = files[i].clone();
                        marked.append(".DUP");
                        proof {
                            reveal_strlit(".DUP");
                            assert(".DUP"@ =~= dup_suffix());
                            assert(path@ == ent[i as int]);
                            assert(marked@ == ent[i as int] + dup_suffix());
                            assert(pair_views(renames@.push((path, marked))) =~= pair_views(
                                renames@,
                            ).push((path@, marked@)));
                            assert(rename_pairs(ent, hs, i + 1) == rename_pairs(
                                ent,
                                hs,
                                i as int,
                            ).push((ent[i as int], ent[i as int] + dup_suffix())));
                        }
                        renames.push((path, marked));
                    } else {
                        proof {
                            assert(rename_pairs(ent, hs, i + 1) == rename_pairs(
                                ent,
                                hs,
                                i as int,
                            ).push((ent[i as int], ent[i as int] + dup_suffix())));
                        }
                    }
                }
                None => {
                    proof {
                        assert(hs[i as int] == h@ && bn[i as int] == fname@);
                    }
                    let ghost pre_index = index@;
                    index.push((h, fname));
                    proof {
                        lemma_index_missing(pre_index, (h, fname), hs, bn, i as int);
                        assert(index@ == pre_index.push((h, fname)));
                        assert(dup_pairs(bn, hs, i + 1) == dup_pairs(bn, hs, i as int));
                        assert(rename_pairs(ent, hs, i + 1) == rename_pairs(ent, hs, i as int));
                    }
                }
            }
            i = i + 1;
        }
        let sorted = sort_strings(dupes);
        ScanReport { dupes: sorted, renames }
    }
}

/// Counts the slots among the first `n` bearing digest `h`: the size of
/// that digest's duplicate group.
pub open spec fn count_hash(hashes: Seq<Seq<char>>, h: Seq<char>, n: int) -> int
    decreases n,
{
    if n <= 0 {
        0
    } else {
        count_hash(hashes, h, n - 1) + if hashes[n - 1] == h {
            1int
        } else {
            0int
        }
    }
}

/// Counts the slots among the first `n` bearing digest `h` that repeat
/// an earlier slot: the members of the group that get marked.
pub open spec fn count_marked(hashes: Seq<Seq<char>>, h: Seq<char>, n: int) -> int
    decreases n,
{
    if n <= 0 {
        0
    } else {
        count_marked(hashes, h, n - 1) + if hashes[n - 1] == h && dup_at(hashes, n - 1) {
            1int
        } else {
            0int
        }
    }
}

/// Some slot among the first `n` bears digest `h`: the group is there.
pub open spec fn has_hash(hashes: Seq<Seq<char>>, h: Seq<char>, n: int) -> bool {
    exists|j: int| 0 <= j < n && #[trigger] hashes[j] == h
}

/// Marking invariant: a duplicate group of size `k` has exactly `k - 1`
/// repeating members, so exactly `k - 1` of its files are renamed when
/// marking is requested, and a group of size zero has none.
pub proof fn lemma_group_marks(hashes: Seq<Seq<char>>, h: Seq<char>, n: int)
    requires
        0 <= n <= hashes.len(),
    ensures
        count_hash(hashes, h, n) >= 0,
        count_marked(hashes, h, n) >= 0,
        (count_hash(hashes, h, n) > 0) <==> has_hash(hashes, h, n),
        count_hash(hashes, h, n) > 0 ==> count_marked(hashes, h, n) == count_hash(hashes, h, n)
            - 1,
        count_hash(hashes, h, n) == 0 ==> count_marked(hashes, h, n) == 0,
    decreases n,
{
    if n > 0 {
        lemma_group_marks(hashes, h, n - 1);
        if hashes[n - 1] == h {
            assert(has_hash(hashes, h, n));
            if dup_at(hashes, n - 1) {
                let j = choose|j: int| 0 <= j < n - 1 && #[trigger] hashes[j] == hashes[n - 1];
                assert(hashes[j] == h);
                assert(has_hash(hashes, h, n - 1));
            } else {
                assert(!has_hash(hashes, h, n - 1)) by {
                    if has_hash(hashes, h, n - 1) {
                        let j = choose|j: int| 0 <= j < n - 1 && #[trigger] hashes[j] == h;
                        assert(0 <= j < n - 1 && hashes[j] == hashes[n - 1]);
                        assert(dup_at(hashes, n - 1));
                        assert(false);
                    }
                }
                assert(count_hash(hashes, h, n - 1) == 0);
            }
        } else {
            assert(has_hash(hashes, h, n) == has_hash(hashes, h, n - 1)) by {
                if has_hash(hashes, h, n) {
                    let j = choose|j: int| 0 <= j < n && #[trigger] hashes[j] == h;
                    assert(j != n - 1);
                    assert(has_hash(hashes, h, n - 1));
                }
                if has_hash(hashes, h, n - 1) {
                    let j = choose|j: int| 0 <= j < n - 1 && #[trigger] hashes[j] == h;
                    assert(0 <= j < n && hashes[j] == h);
                }
            }
        }
    }
}

/// Each repeating slot contributes exactly one report line and, when
/// marking is requested, exactly one rename: the two always number the
/// same.
pub proof fn lemma_one_rename_per_report_line(
    names: Seq<Seq<char>>,
    entries: Seq<Seq<char>>,
    hashes: Seq<Seq<char>>,
    n: int,
)
    ensures
        dup_pairs(names, hashes, n).len() == rename_pairs(entries, hashes, n).len(),
    decreases n,
{
    if n > 0 {
        lemma_one_rename_per_report_line(names, entries, hashes, n - 1);
    }
}

/// The first-seen member of a group never repeats an earlier slot, so
/// it is never reported and never renamed.
pub proof fn lemma_first_not_marked(hashes: Seq<Seq<char>>, h: Seq<char>, j0: int)
    requires
        0 <= j0 < hashes.len(),
        hashes[j0] == h,
    ensures
        !dup_at(hashes, first_index(hashes, h)),
        hashes[first_index(hashes, h)] == h,
{
    lemma_first_from(hashes, h, 0, j0);
}

/// Idempotent scan: the report is a function of the catalog names and
/// file bytes alone, so two scans over unchanged files give the same
/// report. Any two sorted reports whose contents agree with the same
/// scan are equal line for line.
pub proof fn lemma_scan_deterministic(
    d1: Seq<Seq<char>>,
    d2: Seq<Seq<char>>,
    expected: Seq<Seq<char>>,
)
    requires
        sorted_by(d1, lex_leq_fn()),
        sorted_by(d2, lex_leq_fn()),
        d1.to_multiset() == expected.to_multiset(),
        d2.to_multiset() == expected.to_multiset(),
    ensures
        d1 == d2,
{
    crate::strutil::lemma_lex_total_ordering();
    vstd::seq_lib::lemma_sorted_unique(d1, d2, lex_leq_fn());
    assert(d1 =~= d2);
}

} // verus!
