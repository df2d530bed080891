//! The parser: a two-state machine (no list open / list open) driven one
//! trimmed line at a time, together with its mathematical model.

use vstd::prelude::*;
use vstd::string::StrSliceExecFns;

use crate::text::{
    find_sep, find_sep_str, lemma_find_sep_spec, lemma_split_lines_first, lemma_split_lines_whole,
    split_lines, starts_dash, starts_dash_str, trim, trim_end, trim_end_str, trim_start,
    trim_start_str, trim_str,
};
use crate::{List, Mapping, SpecMapping, SpecValue, Value};

verus! {

/// The model of the parser state: the entries emitted so far and the open
/// list, if any, as its key and the items accumulated so far.
pub type ParseState = (Seq<SpecMapping>, Option<(Seq<char>, Seq<Seq<char>>)>);

/// The state of a parser that has consumed nothing.
pub open spec fn init_state() -> ParseState {
    (Seq::<SpecMapping>::empty(), None)
}

/// One step of the machine when no list is open: a line with a `": "`
/// separator yields a string entry split at the first separator; any other
/// line opens a list with the whole line as its key.
pub open spec fn step_closed(ms: Seq<SpecMapping>, line: Seq<char>) -> ParseState {
    match find_sep(line) {
        Some(i) => (
            ms.push(
                SpecMapping {
                    key: trim_end(line.subrange(0, i)),
                    value: SpecValue::String(trim_start(line.subrange(i + 2, line.len() as int))),
                },
            ),
            None,
        ),
        None => (ms, Some((line, Seq::<Seq<char>>::empty()))),
    }
}

/// The entry an open list turns into when it closes.
pub open spec fn close_entry(key: Seq<char>, items: Seq<Seq<char>>) -> SpecMapping {
    SpecMapping { key: key, value: SpecValue::List(items) }
}

/// One step of the machine on a trimmed nonempty line: a `"- "` line extends
/// an open list; any other line first closes the open list, then is read as
/// an entry start by [`step_closed`].
pub open spec fn line_step(st: ParseState, line: Seq<char>) -> ParseState {
    match st.1 {
        Some(open) => {
            if starts_dash(line) {
                (
                    st.0,
                    Some((open.0, open.1.push(trim_start(line.subrange(2, line.len() as int))))),
                )
            } else {
                step_closed(st.0.push(close_entry(open.0, open.1)), line)
            }
        },
        None => step_closed(st.0, line),
    }
}

/// One raw line: trimmed first, skipped entirely when blank.
pub open spec fn consume_line(st: ParseState, raw: Seq<char>) -> ParseState {
    if trim(raw).len() == 0 {
        st
    } else {
        line_step(st, trim(raw))
    }
}

/// The machine run over a sequence of raw lines.
pub open spec fn run_lines(st: ParseState, lines: Seq<Seq<char>>) -> ParseState
    decreases lines.len(),
{
    if lines.len() == 0 {
        st
    } else {
        run_lines(consume_line(st, lines[0]), lines.subrange(1, lines.len() as int))
    }
}

/// End of input: a still-open list closes, even with zero items.
pub open spec fn finish(st: ParseState) -> Seq<SpecMapping> {
    match st.1 {
        Some(open) => st.0.push(close_entry(open.0, open.1)),
        None => st.0,
    }
}

/// The document that parsing `text` yields: every line trimmed, blank lines
/// skipped, the two-state machine run over the rest.
pub open spec fn parse_spec(text: Seq<char>) -> Seq<SpecMapping> {
    finish(run_lines(init_state(), split_lines(text)))
}

/// Running over concatenated line sequences is running over the one, then
/// the other.
pub proof fn lemma_run_lines_append(st: ParseState, a: Seq<Seq<char>>, b: Seq<Seq<char>>)
    ensures
        run_lines(st, a + b) == run_lines(run_lines(st, a), b),
    decreases a.len(),
{
    if a.len() == 0 {
        assert(a + b =~= b);
    } else {
        assert((a + b)[0] == a[0]);
        assert((a + b).subrange(1, (a + b).len() as int) =~= a.subrange(1, a.len() as int) + b);
        lemma_run_lines_append(consume_line(st, a[0]), a.subrange(1, a.len() as int), b);
    }
}

/// Running over a single line is one consuming step.
pub proof fn lemma_run_lines_singleton(st: ParseState, l: Seq<char>)
    ensures
        run_lines(st, seq![l]) == consume_line(st, l),
{
    let lines = seq![l];
    assert(lines[0] == l);
    assert(lines.subrange(1, lines.len() as int) =~= Seq::<Seq<char>>::empty());
    assert(run_lines(consume_line(st, l), Seq::<Seq<char>>::empty()) == consume_line(st, l));
}

/// An incremental parser: feed lines one at a time through
/// [`Parser::parse_line`], or whole text through [`Parser::parse`].
pub struct Parser {
    mappings: Vec<Mapping>,
    list: Option<(String, List)>,
}

impl View for Parser {
    type V = ParseState;

    closed spec fn view(&self) -> ParseState {
        (
            self.mappings.deep_view(),
            match self.list {
                Some((k, items)) => Some((k@, items.deep_view())),
                None => None,
            },
        )
    }
}

impl Default for Parser {
    /// A parser with no entries and no open list.
    fn default() -> (p: Parser)
        ensures
            p@ == init_state(),
    {
        Parser { mappings: Vec::new(), list: None }
    }
}

impl Parser {
    /// Feeds one line to the machine; the line is used as given, so callers
    /// hand in trimmed nonempty lines when following the line discipline.
    pub fn parse_line(&mut self, line: &str)
        ensures
            final(self)@ == line_step(old(self)@, line@),
    {
        let ghost st0 = self@;
        let taken = self.list.take();
        match taken {
            Some((key, mut items)) => {
                let ghost gkey = key@;
                let ghost gitems = items.deep_view();
                if starts_dash_str(line) {
                    let n = line.unicode_len();
                    let rest = line.substring_char(2, n);
                    let item = trim_start_str(rest);
                    let ghost items0 = items.deep_view();
                    items.push(item.to_owned());
                    proof {
                        assert(items.deep_view() =~= items0.push(
                            trim_start(line@.subrange(2, line@.len() as int)),
                        ));
                    }
                    self.list = Some((key, items));
                    return ;
                }
                let ghost ms0 = self.mappings.deep_view();
                self.mappings.push(Mapping { key, value: Value::List(items) });
                proof {
                    assert(self.mappings.deep_view() =~= ms0.push(close_entry(gkey, gitems)));
                }
            },
            None => {},
        }
        let ghost ms1 = self.mappings.deep_view();
        match find_sep_str(line) {
            Some(i) => {
                proof {
                    lemma_find_sep_spec(line@);
                }
                let n = line.unicode_len();
                let left = trim_end_str(line.substring_char(0, i));
                let right = trim_start_str(line.substring_char(i + 2, n));
                self.mappings.push(
                    Mapping { key: left.to_owned(), value: Value::String(right.to_owned()) },
                );
                proof {
                    assert(self.mappings.deep_view() =~= ms1.push(
                        SpecMapping {
                            key: trim_end(line@.subrange(0, i as int)),
                            value: SpecValue::String(
                                trim_start(line@.subrange(i + 2, line@.len() as int)),
                            ),
                        },
                    ));
                }
            },
            None => {
                let empty_items: List = Vec::new();
                proof {
                    assert(empty_items.deep_view() =~= Seq::<Seq<char>>::empty());
                }
                self.list = Some((line.to_owned(), empty_items));
            },
        }
    }

    /// Parses whole text: splits it at newlines, trims every line, skips
    /// blank lines, and runs the machine over the rest, closing a still-open
    /// list at the end of input.
    pub fn parse(self, input: &str) -> (r: Vec<Mapping>)
        ensures
            r.deep_view() == finish(run_lines(self@, split_lines(input@))),
    {
        let ghost st0 = self@;
        let ghost full = input@;
        let mut p = self;
        let n = input.unicode_len();
        let mut start: usize = 0;
        proof {
            assert(full.subrange(0, n as int) =~= full);
        }
        loop
            invariant_except_break
                start <= n,
                run_lines(st0, split_lines(full)) == run_lines(
                    p@,
                    split_lines(full.subrange(start as int, n as int)),
                ),
            invariant
                n == full.len(),
                full == input@,
            ensures
                p@ == run_lines(st0, split_lines(full)),
            decreases n - start,
        {
            let ghost rest = full.subrange(start as int, n as int);
            let ghost pst = p@;
            let mut end: usize = start;
            while end < n && input.get_char(end) != '\n'
                invariant
                    start <= end <= n,
                    n == full.len(),
                    full == input@,
                    forall|k: int| start <= k < end ==> full[k] != '\n',
                decreases n - end,
            {
                end = end + 1;
            }
            let ghost line = full.subrange(start as int, end as int);
            proof {
                if end == n {
                    lemma_split_lines_whole(rest);
                    assert(rest =~= line);
                } else {
                    lemma_split_lines_first(rest, end - start);
                    assert(rest.subrange(0, end - start) =~= line);
                    assert(rest.subrange(end - start + 1, rest.len() as int) =~= full.subrange(
                        end + 1,
                        n as int,
                    ));
                }
            }
            let line_str = input.substring_char(start, end);
            let t = trim_str(line_str);
            if t.unicode_len() != 0 {
                p.parse_line(t);
            }
            proof {
                assert(p@ == consume_line(pst, line));
                assert(split_lines(rest)[0] == line);
                if end == n {
                    lemma_run_lines_singleton(pst, line);
                    assert(run_lines(pst, split_lines(rest)) == p@);
                } else {
                    assert(split_lines(rest).subrange(1, split_lines(rest).len() as int)
                        =~= split_lines(full.subrange(end + 1, n as int)));
                    assert(run_lines(pst, split_lines(rest)) == run_lines(
                        p@,
                        split_lines(full.subrange(end + 1, n as int)),
                    ));
                }
            }
            if end == n {
                break ;
            }
            start = end + 1;
        }
        if let Some((key, items)) = p.list.take() {
            let ghost gkey = key@;
            let ghost gitems = items.deep_view();
            let ghost ms0 = p.mappings.deep_view();
            p.mappings.push(Mapping { key, value: Value::List(items) });
            proof {
                assert(p.mappings.deep_view() =~= ms0.push(close_entry(gkey, gitems)));
            }
        }
        p.mappings
    }
}

} // verus!
