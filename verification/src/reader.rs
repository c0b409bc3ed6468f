//! Grouping input lines into records: blank lines close the record being
//! accumulated, maximal runs of non-blank lines each yield one record, and
//! the first failing token aborts the whole read.

use vstd::prelude::*;

use crate::record::{
    empty_model, line_has_bad_key, line_result, lemma_bad_key_line_fails, lemma_blank_no_keys,
    Passport, PassportModel, PassportProcessError, ProcessErrorModel,
};
use crate::text::{blank_line, is_blank};

verus! {

/// State of the line-grouping machine: `Empty` while no record with
/// content is open, `Line` while one is being accumulated.
#[derive(Clone, PartialEq, Eq, Structural, Debug)]
pub enum ReadState {
    Empty,
    Line,
}

impl Default for ReadState {
    /// The machine starts with no open record.
    fn default() -> (r: Self)
        ensures
            r == ReadState::Empty,
    {
        ReadState::Empty
    }
}

/// What the rest of the input denotes, given the machine's state: `in_rec`
/// says whether `cur` is an open record with content, `out` holds the
/// records already emitted. A blank line emits the open record, a
/// non-blank line starts or extends one, and the end of input emits what
/// is still open.
pub open spec fn read_rest(
    lines: Seq<Seq<char>>,
    in_rec: bool,
    cur: PassportModel,
    out: Seq<PassportModel>,
) -> Result<Seq<PassportModel>, ProcessErrorModel>
    decreases lines.len(),
{
    if lines.len() == 0 {
        Ok(
            if in_rec {
                out.push(cur)
            } else {
                out
            },
        )
    } else if blank_line(lines[0]) {
        read_rest(
            lines.skip(1),
            false,
            empty_model(),
            if in_rec {
                out.push(cur)
            } else {
                out
            },
        )
    } else {
        match line_result(
            if in_rec {
                cur
            } else {
                empty_model()
            },
            lines[0],
        ) {
            Ok(m2) => read_rest(lines.skip(1), true, m2, out),
            Err(e) => Err(e),
        }
    }
}

/// The records a batch of input lines denotes, in input order, or the
/// first parse failure.
pub open spec fn read_model(lines: Seq<Seq<char>>) -> Result<
    Seq<PassportModel>,
    ProcessErrorModel,
> {
    read_rest(lines, false, empty_model(), Seq::empty())
}

/// The model a `read_from_file` call's outcome stands for.
pub open spec fn read_outcome(r: Result<Vec<Passport>, PassportProcessError>) -> Result<
    Seq<PassportModel>,
    ProcessErrorModel,
> {
    match r {
        Ok(ps) => Ok(ps.deep_view()),
        Err(e) => Err(e@),
    }
}

/// Group the input lines into records. Records are separated by one or
/// more blank lines; leading and trailing blank lines are ignored; an
/// input of blank lines only yields no records and no error. The first
/// token that fails aborts the whole read with that failure.
#[verifier::loop_isolation(false)]
pub fn read_from_file(lines: &Vec<String>) -> (r: Result<Vec<Passport>, PassportProcessError>)
    ensures
        read_outcome(r) == read_model(lines.deep_view()),
{
    let ghost all = lines.deep_view();
    let mut state = ReadState::default();
    let mut passports: Vec<Passport> = Vec::new();
    let mut passport = Passport::new();
    let mut i: usize = 0;
    proof {
        assert(all.skip(0) =~= all);
        assert(passports.deep_view() =~= Seq::<PassportModel>::empty());
    }
    while i < lines.len()
        invariant
            i <= lines@.len(),
            read_rest(all.skip(i as int), state is Line, passport@, passports.deep_view())
                == read_model(all),
            state is Empty ==> passport@ == empty_model(),
        decreases lines@.len() - i,
    {
        let line = &lines[i];
        proof {
            assert(all[i as int] == line@);
            assert(all.skip(i as int)[0] == all[i as int]);
            assert(all.skip(i as int).skip(1) =~= all.skip(i + 1));
        }
        if is_blank(line.as_str()) {
            if state == ReadState::Line {
                let ghost pre = passports.deep_view();
                let ghost pm = passport@;
                passports.push(passport);
                passport = Passport::new();
                proof {
                    assert(passports.deep_view() =~= pre.push(pm));
                }
            }
            state = ReadState::Empty;
        } else {
            let processed = passport.process(line.as_str());
            match processed {
                Ok(p2) => {
                    passport = p2;
                },
                Err(e) => {
                    return Err(e);
                },
            }
            state = ReadState::Line;
        }
        i = i + 1;
    }
    proof {
        assert(all.skip(lines@.len() as int) =~= Seq::<Seq<char>>::empty());
    }
    if state == ReadState::Line {
        let ghost pre = passports.deep_view();
        let ghost pm = passport@;
        passports.push(passport);
        proof {
            assert(passports.deep_view() =~= pre.push(pm));
        }
    }
    Ok(passports)
}

/// Count of maximal runs of non-blank lines, given whether such a run is
/// already open just before these lines.
pub open spec fn nonblank_runs(lines: Seq<Seq<char>>, in_run: bool) -> int
    decreases lines.len(),
{
    if lines.len() == 0 {
        0
    } else {
        nonblank_runs(lines.skip(1), !blank_line(lines[0])) + if !blank_line(lines[0]) && !in_run {
            1int
        } else {
            0int
        }
    }
}

proof fn lemma_read_rest_groups(
    lines: Seq<Seq<char>>,
    in_rec: bool,
    cur: PassportModel,
    out: Seq<PassportModel>,
)
    requires
        read_rest(lines, in_rec, cur, out) is Ok,
    ensures
        (read_rest(lines, in_rec, cur, out)->Ok_0).len() == out.len() + nonblank_runs(
            lines,
            in_rec,
        ) + if in_rec {
            1int
        } else {
            0int
        },
    decreases lines.len(),
{
    if lines.len() == 0 {
    } else if blank_line(lines[0]) {
        lemma_read_rest_groups(
            lines.skip(1),
            false,
            empty_model(),
            if in_rec {
                out.push(cur)
            } else {
                out
            },
        );
    } else {
        let start = if in_rec {
            cur
        } else {
            empty_model()
        };
        match line_result(start, lines[0]) {
            Ok(m2) => {
                lemma_read_rest_groups(lines.skip(1), true, m2, out);
            },
            Err(e) => {},
        }
    }
}

/// Grouping correctness: a read that succeeds yields exactly one record
/// per maximal run of non-blank lines, however many blank lines surround
/// or separate the runs.
pub proof fn lemma_grouping(lines: Seq<Seq<char>>)
    requires
        read_model(lines) is Ok,
    ensures
        (read_model(lines)->Ok_0).len() == nonblank_runs(lines, false),
{
    lemma_read_rest_groups(lines, false, empty_model(), Seq::empty());
}

proof fn lemma_read_rest_all_blank(lines: Seq<Seq<char>>, out: Seq<PassportModel>)
    requires
        forall|i: int| 0 <= i < lines.len() ==> blank_line(#[trigger] lines[i]),
    ensures
        read_rest(lines, false, empty_model(), out) == Ok::<Seq<PassportModel>, ProcessErrorModel>(
            out,
        ),
    decreases lines.len(),
{
    if lines.len() > 0 {
        assert forall|i: int| 0 <= i < lines.skip(1).len() implies blank_line(
            #[trigger] lines.skip(1)[i],
        ) by {
            assert(lines.skip(1)[i] == lines[i + 1]);
        }
        lemma_read_rest_all_blank(lines.skip(1), out);
    }
}

/// Empty input: zero lines, or blank lines only, read as no records at
/// all rather than as an error.
pub proof fn lemma_all_blank(lines: Seq<Seq<char>>)
    requires
        forall|i: int| 0 <= i < lines.len() ==> blank_line(#[trigger] lines[i]),
    ensures
        read_model(lines) == Ok::<Seq<PassportModel>, ProcessErrorModel>(
            Seq::<PassportModel>::empty(),
        ),
{
    lemma_read_rest_all_blank(lines, Seq::empty());
}

proof fn lemma_read_rest_bad_key(
    lines: Seq<Seq<char>>,
    in_rec: bool,
    cur: PassportModel,
    out: Seq<PassportModel>,
    w: int,
)
    requires
        0 <= w < lines.len(),
        line_has_bad_key(lines[w]),
    ensures
        read_rest(lines, in_rec, cur, out) is Err,
    decreases lines.len(),
{
    if blank_line(lines[0]) {
        if w == 0 {
            lemma_blank_no_keys(lines[0]);
        } else {
            assert(lines.skip(1)[w - 1] == lines[w]);
            lemma_read_rest_bad_key(
                lines.skip(1),
                false,
                empty_model(),
                if in_rec {
                    out.push(cur)
                } else {
                    out
                },
                w - 1,
            );
        }
    } else {
        let start = if in_rec {
            cur
        } else {
            empty_model()
        };
        if w == 0 {
            lemma_bad_key_line_fails(start, lines[0]);
        } else {
            match line_result(start, lines[0]) {
                Ok(m2) => {
                    assert(lines.skip(1)[w - 1] == lines[w]);
                    lemma_read_rest_bad_key(lines.skip(1), true, m2, out, w - 1);
                },
                Err(e) => {},
            }
        }
    }
}

/// Catalog closure: a batch with any token whose key lies outside the
/// catalog never reads successfully. Together with `lemma_unknown_key`,
/// which pins the failing token's error to `UnknownKey`, this is the
/// whole-read form of the catalog invariant.
pub proof fn lemma_catalog_closure(lines: Seq<Seq<char>>, w: int)
    requires
        0 <= w < lines.len(),
        line_has_bad_key(lines[w]),
    ensures
        read_model(lines) is Err,
{
    lemma_read_rest_bad_key(lines, false, empty_model(), Seq::empty(), w);
}

} // verus!
