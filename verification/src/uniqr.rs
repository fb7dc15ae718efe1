//! Collapsing runs of equal lines into one, with or without their count.

pub use crate::error::{MyError, MyResult};
use crate::lines::{raw_lines, readable, readable_lines};
use crate::text::{
    align_right, chars_of, decimal_digits, right_aligned, same_prefix, texts, trim_end_len,
    trimmed_end,
};
use vstd::prelude::*;
use vstd::string::StringExecFns;

verus! {

/// What is read, where the result goes, and whether runs are counted.
#[derive(Debug)]
pub struct Config {
    pub in_file: String,
    pub out_file: Option<String>,
    pub count: bool,
}

/// Whether two lines differ in more than the white space at their ends.
pub fn strings_differ(s1: &str, s2: &str) -> (differ: bool)
    ensures
        differ == (trimmed_end(s1@) != trimmed_end(s2@)),
{
    let a = chars_of(s1);
    let b = chars_of(s2);
    let ea = trim_end_len(&a);
    let eb = trim_end_len(&b);
    if ea != eb {
        assert(a@.take(ea as int).len() != b@.take(eb as int).len());
        return true;
    }
    !same_prefix(&a, &b, ea)
}

/// A run of lines that are equal but for the white space at their ends:
/// its first line, and how many lines it has.
pub struct Run {
    pub line: Seq<char>,
    pub count: nat,
}

/// The runs of `lines`, in order.
pub open spec fn runs(lines: Seq<Seq<char>>) -> Seq<Run>
    decreases lines.len(),
{
    if lines.len() == 0 {
        Seq::empty()
    } else {
        let before = runs(lines.drop_last());
        if before.len() > 0 && trimmed_end(before.last().line) == trimmed_end(lines.last()) {
            before.drop_last().push(
                Run { line: before.last().line, count: before.last().count + 1 },
            )
        } else {
            before.push(Run { line: lines.last(), count: 1 })
        }
    }
}

/// The width of the column of counts.
pub const COLUMN: usize = 4;

/// What is written for one run.
pub open spec fn run_text(run: Run, show_count: bool) -> Seq<char> {
    if show_count {
        right_aligned(decimal_digits(run.count), COLUMN as nat) + " "@ + run.line
    } else {
        run.line
    }
}

/// What is written for runs, in order.
pub open spec fn runs_text(all: Seq<Run>, show_count: bool) -> Seq<char>
    decreases all.len(),
{
    if all.len() == 0 {
        Seq::empty()
    } else {
        runs_text(all.drop_last(), show_count) + run_text(all.last(), show_count)
    }
}

proof fn lemma_runs_shape(lines: Seq<Seq<char>>)
    ensures
        lines.len() > 0 ==> runs(lines).len() > 0,
    decreases lines.len(),
{
    if lines.len() > 0 {
        lemma_runs_shape(lines.drop_last());
    }
}

/// Writes one run.
fn write_run(out: &mut String, line: &str, counter: usize, show_count: bool)
    ensures
        final(out)@ == old(out)@ + run_text(Run { line: line@, count: counter as nat }, show_count),
{
    if show_count {
        let label = align_right(counter as u64, COLUMN);
        out.append(label.as_str());
        out.append(" ");
    }
    out.append(line);
    proof {
        let ghost start = old(out)@;
        if show_count {
            assert(final(out)@ =~= start + (right_aligned(
                decimal_digits(counter as nat),
                COLUMN as nat,
            ) + " "@ + line@));
        }
    }
}

/// The text that collapsing the runs of `content` gives; the lines are
/// read up to the first that is not well-formed UTF-8.
pub fn process_input(content: &[u8], show_count: bool) -> (out: String)
    ensures
        out@ == runs_text(runs(readable(raw_lines(content@))), show_count),
{
    let lines = readable_lines(content);
    let ghost all = texts(lines@);
    let mut out = String::new();
    let mut last: usize = 0;
    let mut counter: usize = 0;
    let mut i: usize = 0;
    proof {
        assert(all.take(0) =~= Seq::<Seq<char>>::empty());
    }
    while i < lines.len()
        invariant
            i <= lines.len() == all.len(),
            all == texts(lines@),
            i > 0 ==> last < i && counter >= 1,
            counter <= i,
            i > 0 ==> runs(all.take(i as int)).len() > 0,
            i > 0 ==> runs(all.take(i as int)).last() == (Run {
                line: lines@[last as int]@,
                count: counter as nat,
            }),
            out@ == if i > 0 {
                runs_text(runs(all.take(i as int)).drop_last(), show_count)
            } else {
                Seq::<char>::empty()
            },
        decreases lines.len() - i,
    {
        let ghost before = runs(all.take(i as int));
        proof {
            assert(all.take(i + 1).drop_last() =~= all.take(i as int));
            assert(all.take(i + 1).last() == lines@[i as int]@);
            lemma_runs_shape(all.take(i as int));
        }
        if i == 0 {
            last = 0;
            counter = 1;
            proof {
                assert(runs(all.take(1)) =~= seq![Run { line: lines@[0]@, count: 1 }]);
                assert(runs(all.take(1)).drop_last() =~= Seq::<Run>::empty());
            }
        } else if strings_differ(lines[last].as_str(), lines[i].as_str()) {
            write_run(&mut out, lines[last].as_str(), counter, show_count);
            proof {
                let after = runs(all.take(i + 1));
                assert(after.drop_last() =~= before);
                assert(before =~= before.drop_last().push(before.last()));
            }
            last = i;
            counter = 1;
        } else {
            proof {
                let after = runs(all.take(i + 1));
                assert(after.drop_last() =~= before.drop_last());
            }
            counter += 1;
        }
        i += 1;
    }
    if lines.len() > 0 {
        proof {
            assert(all.take(lines.len() as int) =~= all);
            let whole = runs(all);
            assert(whole =~= whole.drop_last().push(whole.last()));
        }
        write_run(&mut out, lines[last].as_str(), counter, show_count);
    } else {
        assert(all =~= Seq::<Seq<char>>::empty());
    }
    out
}

/// The text to write for the text of the input file.
pub fn run(config: &Config, content: &[u8]) -> (result: MyResult<String>)
    ensures
        result matches Ok(out) && out@ == runs_text(
            runs(readable(raw_lines(content@))),
            config.count,
        ),
{
    Ok(process_input(content, config.count))
}

} // verus!
