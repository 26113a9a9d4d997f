//! The catalog of one directory's files and the rotation selector over
//! it. The catalog is built from a listing the caller supplies; the
//! selector picks one entry per call, never repeating an entry until
//! all but one have been used, and resets the used set when fewer than
//! two unused entries remain. The used set is mirrored to a state file
//! through `state_serialize` and `load_state`; the caller moves the text
//! to and from disk.

use vstd::prelude::*;
use vstd::string::*;

verus! {

use crate::outside::{spec_alphanumeric, is_alphanumeric_char, push_char, random_index_below};
use crate::lines::{join_lines, split_lines, join_lines_exec, split_lines_exec};
use crate::strutil::views;

/// Why a selection could not be made: the catalog holds no entries at
/// all, which no amount of resetting can mend.
#[derive(Clone, Copy, Debug, PartialEq, Eq, Structural)]
pub enum SelectError {
    EmptyCatalog,
}

/// A catalog of the files found in one base directory, with the
/// selector's used set alongside it.
///
/// `name` is the base directory path stripped to its alphanumeric
/// characters; it namespaces the persisted state file. `filenames` is
/// the directory listing, fixed for the lifetime of the value. `used`
/// holds the paths already selected since the last reset; it is loaded
/// verbatim from the state file and may mention paths no longer listed,
/// which is harmless because it is only ever tested for membership.
pub struct ImageList {
    name: String,
    filenames: Vec<String>,
    used: Vec<String>,
}

impl ImageList {
    /// The sanitized directory name that keys the persisted state.
    pub closed spec fn spec_name(self) -> Seq<char> {
        self.name@
    }

    /// The catalog: the path of each directory entry, in listing order.
    pub closed spec fn entries(self) -> Seq<Seq<char>> {
        views(self.filenames@)
    }

    /// The used set, as the ordered records of the state file.
    pub closed spec fn used_records(self) -> Seq<Seq<char>> {
        views(self.used@)
    }

    /// Fewer than two catalog entries are outside the used set, counting
    /// by length; the next selection clears the used set first.
    pub open spec fn reset_needed(self) -> bool {
        (self.entries().len() as int) - (self.used_records().len() as int) < 2
    }

    /// Builds the catalog for `basedir` from the directory listing the
    /// caller took, with an empty used set. The caller lists the
    /// directory itself and fails fatally when it cannot be read, since
    /// nothing can be selected without a file universe.
    pub fn from_entries(basedir: &str, entries: Vec<String>) -> (r: ImageList)
        ensures
            r.spec_name() == basedir@.filter(|c: char| spec_alphanumeric(c)),
            r.entries() == views(entries@),
            r.used_records() == Seq::<Seq<char>>::empty(),
    {
        let name = keep_alphanumeric(basedir);
        let used: Vec<String> = Vec::new();
        proof {
            assert(views(used@) =~= Seq::<Seq<char>>::empty());
        }
        ImageList { name, filenames: entries, used }
    }

    /// The sanitized name, for the caller to place the state file by.
    pub fn name_str(&self) -> (r: &str)
        ensures
            r@ == self.spec_name(),
    {
        self.name.as_str()
    }

    /// The catalog entries, for the caller to read file bytes from.
    pub fn filenames(&self) -> (r: &Vec<String>)
        ensures
            views(r@) == self.entries(),
    {
        &self.filenames
    }

    /// The used set as currently held in memory.
    pub fn used(&self) -> (r: &Vec<String>)
        ensures
            views(r@) == self.used_records(),
    {
        &self.used
    }

    /// Replaces the used set with the records of a state file's text,
    /// verbatim: no record is checked against the catalog, since a stale
    /// record is only ever a membership test that never fires.
    pub fn load_state(&mut self, data: &str)
        ensures
            final(self).used_records() == split_lines(data@),
            final(self).entries() == old(self).entries(),
            final(self).spec_name() == old(self).spec_name(),
    {
        self.used = split_lines_exec(data);
    }

    /// The text to persist after a selection: the whole used set,
    /// newline-separated, overwriting the previous state file.
    pub fn state_serialize(&self) -> (r: String)
        ensures
            r@ == join_lines(self.used_records()),
    {
        join_lines_exec(&self.used)
    }

    /// Every catalog slot holds an already-used path. With distinct
    /// entries this only happens together with `reset_needed`; a catalog
    /// that lists the same path more than once can reach it on its own,
    /// and the selector treats it as one more reason to reset rather
    /// than search forever for an unused entry that does not exist.
    pub open spec fn all_used(self) -> bool {
        forall|i: int|
            0 <= i < self.entries().len() ==> self.used_records().contains(
                #[trigger] self.entries()[i],
            )
    }

    /// The next selection clears the used set before picking.
    pub open spec fn will_reset(self) -> bool {
        self.reset_needed() || self.all_used()
    }

    /// Picks one catalog slot at random among those whose path is not in
    /// the used set, clearing the used set first when fewer than two
    /// entries remain unused; the pick is recorded in the used set.
    /// Fails exactly on an empty catalog. The caller persists
    /// `state_serialize` afterwards. The draw is uniform over the unused
    /// slots, which is the distribution rejection sampling over the
    /// whole catalog converges to, without its unbounded retry loop.
    pub fn select(&mut self) -> (r: Result<String, SelectError>)
        ensures
            r is Ok <==> old(self).entries().len() > 0,
            match r {
                Ok(p) => select_step(*old(self), *final(self), p@),
                Err(e) => e == SelectError::EmptyCatalog && *final(self) == *old(self),
            },
    {
        if self.filenames.len() == 0 {
            return Err(SelectError::EmptyCatalog);
        }
        if self.used.len() >= self.filenames.len() - 1 {
            self.used = Vec::new();
            proof {
                assert(views(self.used@) =~= Seq::<Seq<char>>::empty());
            }
        }
        let ghost cleared = *self;
        let mut unused_idx: Vec<usize> = Vec::new();
        let mut i: usize = 0;
        while i < self.filenames.len()
            invariant
                i <= self.filenames@.len(),
                *self == cleared,
                forall|k: int|
                    0 <= k < unused_idx@.len() ==> (#[trigger] unused_idx@[k]) < i
                        && !views(self.used@).contains(
                        views(self.filenames@)[unused_idx@[k] as int],
                    ),
                unused_idx@.len() == 0 ==> forall|m: int|
                    0 <= m < i ==> views(self.used@).contains(
                        #[trigger] views(self.filenames@)[m],
                    ),
            decreases self.filenames@.len() - i,
        {
            if !contains_string(&self.used, &self.filenames[i]) {
                proof {
                    assert(views(self.filenames@)[i as int] == self.filenames@[i as int]@);
                }
                unused_idx.push(i);
            }
            i = i + 1;
        }
        if unused_idx.len() == 0 {
            proof {
                assert(cleared.all_used());
                assert(!old(self).reset_needed() ==> old(self).all_used());
            }
            self.used = Vec::new();
            let choice = random_index_below(self.filenames.len());
            let potential = self.filenames[choice].clone();
            proof {
                assert(views(self.filenames@)[choice as int] == potential@);
                assert(views(self.filenames@).contains(potential@));
                assert(views(self.used@.push(potential)) =~= views(self.used@).push(potential@));
                assert(views(self.used@).push(potential@) =~= seq![potential@]);
            }
            self.used.push(potential.clone());
            return Ok(potential);
        }
        let k = random_index_below(unused_idx.len());
        let choice = unused_idx[k];
        let potential = self.filenames[choice].clone();
        proof {
            assert(unused_idx@[k as int] == choice);
            assert(views(self.filenames@)[choice as int] == potential@);
            assert(views(self.filenames@).contains(potential@));
            assert(!views(self.used@).contains(potential@));
            assert(views(self.used@.push(potential)) =~= views(self.used@).push(potential@));
            if old(self).reset_needed() {
                assert(views(self.used@).push(potential@) =~= seq![potential@]);
            }
        }
        self.used.push(potential.clone());
        return Ok(potential);
    }
}

/// One successful selection: what `select` promises of the state before
/// the call, the state after it, and the returned path.
pub open spec fn select_step(pre: ImageList, post: ImageList, p: Seq<char>) -> bool {
    &&& post.spec_name() == pre.spec_name()
    &&& post.entries() == pre.entries()
    &&& pre.entries().contains(p)
    &&& if pre.will_reset() {
        post.used_records() == seq![p]
    } else {
        &&& !pre.used_records().contains(p)
        &&& post.used_records() == pre.used_records().push(p)
    }
}

/// Keeps only the alphanumeric characters of a path, in order: the
/// filesystem-safe, deterministic name of a base directory.
pub fn keep_alphanumeric(s: &str) -> (r: String)
    ensures
        r@ == s@.filter(|c: char| spec_alphanumeric(c)),
{
    let ghost pred = |c: char| spec_alphanumeric(c);
    let n = s.unicode_len();
    let mut r = String::new();
    let mut i: usize = 0;
    proof {
        reveal_with_fuel(Seq::<_>::filter, 2);
        assert(s@.take(0int) =~= Seq::<char>::empty());
        assert(r@ =~= s@.take(0int).filter(pred));
    }
    while i < n
        invariant
            i <= n,
            n == s@.len(),
            pred == (|c: char| spec_alphanumeric(c)),
            r@ == s@.take(i as int).filter(pred),
        decreases n - i,
    {
        let c = s.get_char(i);
        proof {
            reveal_with_fuel(Seq::<_>::filter, 2);
            assert(s@.take(i + 1).drop_last() =~= s@.take(i as int));
            assert(s@.take(i + 1).last() == s@[i as int]);
            assert(s@.take(i + 1).filter(pred) == if pred(s@[i as int]) {
                s@.take(i as int).filter(pred).push(s@[i as int])
            } else {
                s@.take(i as int).filter(pred)
            });
        }
        if is_alphanumeric_char(c) {
            push_char(&mut r, c);
        }
        i = i + 1;
    }
    proof {
        assert(s@.take(n as int) =~= s@);
    }
    r
}

/// Whether `s` is one of the strings of `v`.
fn contains_string(v: &Vec<String>, s: &String) -> (r: bool)
    ensures
        r == views(v@).contains(s@),
{
    let mut i: usize = 0;
    while i < v.len()
        invariant
            i <= v@.len(),
            forall|k: int| 0 <= k < i ==> views(v@)[k] != s@,
        decreases v@.len() - i,
    {
        if v[i].eq(s) {
            proof {
                assert(views(v@)[i as int] == s@);
            }
            return true;
        }
        i = i + 1;
    }
    false
}

/// A path stays in the used set from the selection that put it there to
/// the end of any run of selections with no reset after the first call.
proof fn lemma_pick_remembered(states: Seq<ImageList>, picks: Seq<Seq<char>>, i: int, j: int)
    requires
        states.len() == picks.len() + 1,
        forall|k: int|
            0 <= k < picks.len() ==> #[trigger] select_step(states[k], states[k + 1], picks[k]),
        forall|k: int| 1 <= k < picks.len() ==> !(#[trigger] states[k]).will_reset(),
        0 <= i < j <= picks.len(),
    ensures
        states[j].used_records().contains(picks[i]),
    decreases j - i,
{
    if j == i + 1 {
        assert(select_step(states[i], states[i + 1], picks[i]));
        if states[i].will_reset() {
            assert(states[j].used_records()[0] == picks[i]);
        } else {
            assert(states[j].used_records().last() == picks[i]);
        }
    } else {
        lemma_pick_remembered(states, picks, i, j - 1);
        let u = states[j - 1].used_records();
        let w = choose|w: int| 0 <= w < u.len() && u[w] == picks[i];
        assert(select_step(states[j - 1], states[j - 1 + 1], picks[j - 1]));
        assert(states[j - 1 + 1] == states[j]);
        assert(!states[j - 1].will_reset());
        assert(states[j].used_records()[w] == picks[i]);
    }
}

/// No immediate repeat: over any run of successful selections in which
/// no reset fires after the first call, the returned paths are pairwise
/// distinct. On a catalog of `N` distinct entries such a run spans up to
/// `N - 1` calls, after which a reset must fire.
pub proof fn lemma_no_repeat_without_reset(states: Seq<ImageList>, picks: Seq<Seq<char>>)
    requires
        states.len() == picks.len() + 1,
        forall|k: int|
            0 <= k < picks.len() ==> #[trigger] select_step(states[k], states[k + 1], picks[k]),
        forall|k: int| 1 <= k < picks.len() ==> !(#[trigger] states[k]).will_reset(),
    ensures
        forall|i: int, j: int| 0 <= i < j < picks.len() ==> picks[i] != picks[j],
{
    assert forall|i: int, j: int| 0 <= i < j < picks.len() implies picks[i] != picks[j] by {
        lemma_pick_remembered(states, picks, i, j);
        assert(select_step(states[j], states[j + 1], picks[j]));
        assert(!states[j].will_reset());
    }
}

/// The used set is logically a set: a selection never inserts a path
/// it already holds, so duplicates never accumulate.
pub proof fn lemma_used_no_duplicates(pre: ImageList, post: ImageList, p: Seq<char>)
    requires
        select_step(pre, post, p),
        pre.used_records().no_duplicates(),
    ensures
        post.used_records().no_duplicates(),
{
    if pre.will_reset() {
        assert(post.used_records().len() == 1);
    } else {
        let u = pre.used_records();
        assert forall|i: int, j: int|
            0 <= i < j < post.used_records().len() implies post.used_records()[i]
            != post.used_records()[j] by {
            if j < u.len() {
            } else {
                assert(post.used_records()[j] == p);
                assert(post.used_records()[i] == u[i]);
                assert(u.contains(u[i]));
            }
        }
    }
}

/// Reset correctness: a selection made when fewer than two entries
/// remain unused chooses from the full catalog, unconstrained by the
/// old used set, and leaves exactly its own pick recorded.
pub proof fn lemma_reset_gives_full_choice(pre: ImageList, post: ImageList, p: Seq<char>)
    requires
        select_step(pre, post, p),
        pre.reset_needed(),
    ensures
        pre.entries().contains(p),
        post.used_records() == seq![p],
        post.entries() == pre.entries(),
{
}

} // verus!
