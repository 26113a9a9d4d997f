//! The state-file format of the rotation selector: the used paths joined
//! by single newlines, one record per line, no trailing newline. Both
//! directions of the codec are verified, and joining then splitting is
//! proved to give the lines back whenever each line is non-empty and free
//! of newlines.

use vstd::prelude::*;
use vstd::string::*;

verus! {

use crate::outside::push_char;

/// A sequence of path records that the newline codec round-trips:
/// every record is non-empty and contains no newline.
pub open spec fn line_ok(l: Seq<char>) -> bool {
    l.len() > 0 && forall|k: int| 0 <= k < l.len() ==> l[k] != '\n'
}

pub open spec fn lines_ok(lines: Seq<Seq<char>>) -> bool {
    forall|i: int| 0 <= i < lines.len() ==> line_ok(#[trigger] lines[i])
}

/// The text of a state file holding the given records: the records
/// joined by single newlines, with no trailing newline.
pub open spec fn join_lines(lines: Seq<Seq<char>>) -> Seq<char>
    decreases lines.len(),
{
    if lines.len() == 0 {
        Seq::empty()
    } else if lines.len() == 1 {
        lines[0]
    } else {
        lines[0] + seq!['\n'] + join_lines(lines.drop_first())
    }
}

/// One step at a time over `s` from position `i`: `cur` is the line being
/// read, `acc` the lines already read. A final partial line counts; a
/// final empty one does not, so a trailing newline adds no empty record.
pub open spec fn split_from(s: Seq<char>, i: int, cur: Seq<char>, acc: Seq<Seq<char>>) -> Seq<
    Seq<char>,
>
    decreases s.len() - i,
{
    if i < 0 || i >= s.len() {
        if cur.len() == 0 {
            acc
        } else {
            acc.push(cur)
        }
    } else if s[i] == '\n' {
        split_from(s, i + 1, Seq::empty(), acc.push(cur))
    } else {
        split_from(s, i + 1, cur.push(s[i]), acc)
    }
}

/// The records held by a state file with the given text.
pub open spec fn split_lines(s: Seq<char>) -> Seq<Seq<char>> {
    split_from(s, 0, Seq::empty(), Seq::empty())
}

/// Appending one more record to a join: a newline separator appears
/// exactly when the join was non-empty before.
proof fn lemma_join_push(lines: Seq<Seq<char>>, l: Seq<char>)
    ensures
        join_lines(lines.push(l)) == if lines.len() == 0 {
            l
        } else {
            join_lines(lines) + seq!['\n'] + l
        },
    decreases lines.len(),
{
    let pushed = lines.push(l);
    if lines.len() == 0 {
        assert(pushed.len() == 1);
        assert(join_lines(pushed) == pushed[0]);
    } else {
        assert(pushed.drop_first() =~= lines.drop_first().push(l));
        lemma_join_push(lines.drop_first(), l);
        if lines.len() == 1 {
            assert(lines.drop_first().len() == 0);
            assert(join_lines(lines) == lines[0]);
            assert(join_lines(pushed) == pushed[0] + seq!['\n'] + join_lines(pushed.drop_first()));
        } else {
            assert(join_lines(pushed) == pushed[0] + seq!['\n'] + join_lines(pushed.drop_first()));
            assert(join_lines(lines) + seq!['\n'] + l =~= lines[0] + seq!['\n'] + (join_lines(
                lines.drop_first(),
            ) + seq!['\n'] + l));
        }
    }
}

/// Builds the state-file text for the given records.
pub fn join_lines_exec(lines: &Vec<String>) -> (r: String)
    ensures
        r@ == join_lines(lines@.map_values(|s: String| s@)),
{
    let ghost view = lines@.map_values(|s: String| s@);
    let mut r = String::new();
    let mut i: usize = 0;
    while i < lines.len()
        invariant
            i <= lines.len(),
            view == lines@.map_values(|s: String| s@),
            r@ == join_lines(view.take(i as int)),
        decreases lines.len() - i,
    {
        if i > 0 {
            r.append("\n");
            proof {
                reveal_strlit("\n");
                assert("\n"@ =~= seq!['\n']);
            }
        }
        r.append(lines[i].as_str());
        proof {
            assert(view.take(i + 1).drop_last() =~= view.take(i as int));
            assert(view.take(i + 1) =~= view.take(i as int).push(view[i as int]));
            lemma_join_push(view.take(i as int), view[i as int]);
            if i == 0 {
                assert(view.take(0int).len() == 0);
            }
        }
        i = i + 1;
    }
    proof {
        assert(view.take(lines@.len() as int) =~= view);
    }
    r
}

/// Reads the records back out of a state file's text.
pub fn split_lines_exec(s: &str) -> (r: Vec<String>)
    ensures
        r@.map_values(|t: String| t@) == split_lines(s@),
{
    let n = s.unicode_len();
    let mut out: Vec<String> = Vec::new();
    let mut cur = String::new();
    let mut i: usize = 0;
    proof {
        assert(out@.map_values(|t: String| t@) =~= Seq::<Seq<char>>::empty());
        assert(cur@ =~= Seq::<char>::empty());
    }
    while i < n
        invariant
            i <= n,
            n == s@.len(),
            split_lines(s@) == split_from(
                s@,
                i as int,
                cur@,
                out@.map_values(|t: String| t@),
            ),
        decreases n - i,
    {
        let c = s.get_char(i);
        if c == '\n' {
            proof {
                assert(out@.push(cur).map_values(|t: String| t@) =~= out@.map_values(
                    |t: String| t@,
                ).push(cur@));
            }
            out.push(cur);
            cur = String::new();
        } else {
            push_char(&mut cur, c);
        }
        i = i + 1;
    }
    if !cur.as_str().is_empty() {
        proof {
            assert(out@.push(cur).map_values(|t: String| t@) =~= out@.map_values(
                |t: String| t@,
            ).push(cur@));
        }
        out.push(cur);
    }
    out
}

/// A run of `s` from `i` to `j` free of newlines is read as one growing
/// current line.
proof fn lemma_split_run(s: Seq<char>, i: int, j: int, cur: Seq<char>, acc: Seq<Seq<char>>)
    requires
        0 <= i <= j <= s.len(),
        forall|k: int| i <= k < j ==> s[k] != '\n',
    ensures
        split_from(s, i, cur, acc) == split_from(s, j, cur + s.subrange(i, j), acc),
    decreases j - i,
{
    if i == j {
        assert(cur + s.subrange(i, j) =~= cur);
    } else {
        assert(s[i] != '\n');
        lemma_split_run(s, i + 1, j, cur.push(s[i]), acc);
        assert(cur.push(s[i]) + s.subrange(i + 1, j) =~= cur + s.subrange(i, j));
    }
}

/// Splitting the text of `lines` starting at `i` yields `acc` followed by
/// `lines`, provided the remaining text is exactly the join of `lines`.
proof fn lemma_split_join_from(s: Seq<char>, i: int, acc: Seq<Seq<char>>, lines: Seq<Seq<char>>)
    requires
        0 <= i <= s.len(),
        lines_ok(lines),
        s.subrange(i, s.len() as int) == join_lines(lines),
    ensures
        split_from(s, i, Seq::empty(), acc) == acc + lines,
    decreases lines.len(),
{
    let tail = s.subrange(i, s.len() as int);
    if lines.len() == 0 {
        assert(tail.len() == 0);
        assert(i == s.len());
        assert(split_from(s, i, Seq::empty(), acc) == acc);
        assert(acc + lines =~= acc);
    } else if lines.len() == 1 {
        let l = lines[0];
        assert(tail == l);
        assert(line_ok(l));
        assert forall|k: int| i <= k < s.len() implies s[k] != '\n' by {
            assert(s[k] == tail[k - i]);
            assert(tail[k - i] != '\n');
        }
        lemma_split_run(s, i, s.len() as int, Seq::empty(), acc);
        assert(Seq::<char>::empty() + s.subrange(i, s.len() as int) =~= l);
        assert(l.len() > 0);
        assert(split_from(s, s.len() as int, l, acc) == acc.push(l));
        assert(acc + lines =~= acc.push(l));
    } else {
        let l = lines[0];
        let rest = lines.drop_first();
        assert(tail == l + seq!['\n'] + join_lines(rest));
        let j = i + l.len() as int;
        assert(line_ok(l));
        assert forall|k: int| i <= k < j implies s[k] != '\n' by {
            assert(s[k] == tail[k - i]);
            assert(tail[k - i] == l[k - i]);
        }
        assert(s.subrange(i, j) =~= l);
        lemma_split_run(s, i, j, Seq::empty(), acc);
        assert(Seq::<char>::empty() + s.subrange(i, j) =~= l);
        assert(s[j] == tail[j - i]);
        assert(tail[l.len() as int] == '\n');
        assert(l.len() > 0);
        assert(split_from(s, j, l, acc) == split_from(s, j + 1, Seq::empty(), acc.push(l)));
        assert(s.subrange(j + 1, s.len() as int) =~= join_lines(rest)) by {
            assert forall|m: int| 0 <= m < s.len() - (j + 1) implies s.subrange(
                j + 1,
                s.len() as int,
            )[m] == join_lines(rest)[m] by {
                assert(s[j + 1 + m] == tail[j + 1 + m - i]);
                assert(tail[l.len() + 1 + m] == join_lines(rest)[m]);
            }
        }
        assert(lines_ok(rest)) by {
            assert(forall|m: int|
                0 <= m < rest.len() ==> #[trigger] rest[m] == lines[m + 1] && line_ok(
                    lines[m + 1],
                ));
        }
        lemma_split_join_from(s, j + 1, acc.push(l), rest);
        assert(acc.push(l) + rest =~= acc + lines);
    }
}

/// Writing a used set out and reading it back yields the same records,
/// for any records that are non-empty and free of newlines.
pub proof fn lemma_lines_round_trip(lines: Seq<Seq<char>>)
    requires
        lines_ok(lines),
    ensures
        split_lines(join_lines(lines)) == lines,
{
    let s = join_lines(lines);
    assert(s.subrange(0, s.len() as int) =~= s);
    lemma_split_join_from(s, 0, Seq::empty(), lines);
    assert(Seq::<Seq<char>>::empty() + lines =~= lines);
}

} // verus!
