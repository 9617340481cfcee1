//! The lines of a text, and sequences without repeated neighbours.
use crate::text::{push_char, texts};
use vstd::prelude::*;
use vstd::string::*;

verus! {

/// The index of the first line feed of `s` at or after `from`; the length of
/// `s` where there is none.
pub open spec fn first_line_feed(s: Seq<char>, from: int) -> int
    decreases s.len() - from,
{
    if from >= s.len() {
        s.len() as int
    } else if s[from] == '\n' {
        from
    } else {
        first_line_feed(s, from + 1)
    }
}

/// `line` without the carriage return at its end, if it has one.
pub open spec fn without_return(line: Seq<char>) -> Seq<char> {
    if line.len() > 0 && line.last() == '\r' {
        line.drop_last()
    } else {
        line
    }
}

/// The lines of a text. A line ends with a line feed, or with a carriage
/// return and a line feed, which are not part of it. What stands behind the
/// last line feed is a line too, unless it is empty.
pub open spec fn lines_of(s: Seq<char>) -> Seq<Seq<char>>
    decreases s.len(),
{
    if s.len() == 0 {
        Seq::empty()
    } else if 0 <= first_line_feed(s, 0) < s.len() {
        seq![without_return(s.take(first_line_feed(s, 0)))] + lines_of(
            s.skip(first_line_feed(s, 0) + 1),
        )
    } else {
        seq![s]
    }
}

/// Where no line feed stands before `at`, and `at` is the end or holds a
/// line feed, the first line feed is at `at`.
pub proof fn lemma_first_line_feed(s: Seq<char>, from: int, at: int)
    requires
        0 <= from <= at <= s.len(),
        forall|j: int| from <= j < at ==> s[j] != '\n',
        at < s.len() ==> s[at] == '\n',
    ensures
        first_line_feed(s, from) == at,
    decreases at - from,
{
    if from < at {
        lemma_first_line_feed(s, from + 1, at);
    }
}

/// `s` with every run of equal neighbours written once.
pub open spec fn collapse_runs<T>(s: Seq<T>) -> Seq<T>
    decreases s.len(),
{
    if s.len() == 0 {
        s
    } else if s.len() >= 2 && s[s.len() - 2] == s.last() {
        collapse_runs(s.drop_last())
    } else {
        collapse_runs(s.drop_last()).push(s.last())
    }
}

/// The items without those that equal the item before them: each run of
/// equal neighbours gives its first item, once.
pub fn dedup(items: &Vec<usize>) -> (r: Vec<usize>)
    ensures
        r@ == collapse_runs(items@),
{
    let mut out: Vec<usize> = Vec::new();
    let n = items.len();
    let mut i: usize = 0;
    assert(items@.take(0) =~= Seq::<usize>::empty());
    while i < n
        invariant
            n == items.len(),
            i <= n,
            out@ == collapse_runs(items@.take(i as int)),
        decreases n - i,
    {
        proof {
            assert(items@.take(i + 1).drop_last() =~= items@.take(i as int));
            assert(items@.take(i + 1).last() == items@[i as int]);
            if i > 0 {
                assert(items@.take(i + 1)[i - 1] == items@[i - 1]);
            }
        }
        if i == 0 || items[i - 1] != items[i] {
            out.push(items[i]);
        }
        i += 1;
    }
    assert(items@.take(n as int) =~= items@);
    out
}

/// Splits a text into its lines.
pub fn str_lines(string: &str) -> (r: Vec<String>)
    ensures
        texts(r@) == lines_of(string@),
{
    let mut out: Vec<String> = Vec::new();
    let mut line = String::new();
    let mut pending = false;
    let ghost all = string@;
    proof {
        assert(Seq::<char>::empty() + all.skip(0) =~= all);
        assert(texts(out@) + lines_of(all) =~= lines_of(all));
    }
    for c in it: string.chars()
        invariant
            it.seq() == string@,
            all == string@,
            forall|j: int| 0 <= j < line@.len() ==> line@[j] != '\n',
            !pending ==> line@.len() == 0 || line@.last() != '\r',
            lines_of(all) == texts(out@) + lines_of(
                line@ + (if pending { seq!['\r'] } else { Seq::empty() }) + all.skip(it.index() as int),
            ),
    {
        let ghost i = it.index() as int;
        let ghost held = line@ + (if pending { seq!['\r'] } else { Seq::<char>::empty() });
        let ghost rest = held + all.skip(i);
        proof {
            assert(all[i] == c);
            assert(rest[held.len() as int] == c);
        }
        if c == '\n' {
            let ghost done = texts(out@);
            proof {
                lemma_first_line_feed(rest, 0, held.len() as int);
                assert(rest.take(held.len() as int) =~= held);
                assert(rest.skip(held.len() as int + 1) =~= all.skip(i + 1));
                assert(without_return(held) =~= line@);
            }
            out.push(line);
            line = String::new();
            pending = false;
            proof {
                assert(texts(out@) =~= done.push(out@[out@.len() - 1]@));
                assert(line@ + Seq::<char>::empty() + all.skip(i + 1) =~= all.skip(i + 1));
                assert(done + (seq![without_return(held)] + lines_of(all.skip(i + 1))) =~= texts(
                    out@,
                ) + lines_of(all.skip(i + 1)));
            }
        } else {
            if pending {
                push_char(&mut line, '\r');
            }
            if c == '\r' {
                pending = true;
            } else {
                push_char(&mut line, c);
                pending = false;
            }
            proof {
                assert(line@ + (if pending { seq!['\r'] } else { Seq::<char>::empty() }) + all.skip(
                    i + 1,
                ) =~= rest);
            }
        }
    }
    let ghost held = line@ + (if pending { seq!['\r'] } else { Seq::<char>::empty() });
    if pending {
        push_char(&mut line, '\r');
    }
    proof {
        let n = all.len() as int;
        assert(all.skip(n) =~= Seq::<char>::empty());
        assert(held + all.skip(n) =~= held);
        assert(line@ =~= held);
    }
    let ghost done = texts(out@);
    if line.as_str().unicode_len() > 0 {
        proof {
            lemma_first_line_feed(line@, 0, line@.len() as int);
            assert(lines_of(line@) == seq![line@]);
        }
        out.push(line);
        proof {
            assert(texts(out@) =~= done + seq![held]);
        }
    } else {
        proof {
            assert(done + lines_of(held) =~= done);
        }
    }
    out
}

} // verus!
