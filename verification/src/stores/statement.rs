//! The SQL text of a range query: its conditions, what they mean, and how
//! they are written down.

use vstd::prelude::*;
use vstd::string::StringExecFns;
use std::ops::Bound;
use crate::entry::{Entry, EntryView};
use crate::model::{select, without, RangeView};

verus! {

/// The ten digits, in order.
pub open spec fn digit_chars() -> Seq<char> {
    seq!['0', '1', '2', '3', '4', '5', '6', '7', '8', '9']
}

/// The decimal digits of a natural number, most significant first.
pub open spec fn digits(n: nat) -> Seq<char>
    decreases n,
{
    if n < 10 {
        seq![digit_chars()[n as int]]
    } else {
        digits(n / 10).push(digit_chars()[(n % 10) as int])
    }
}

/// A whole number in decimal, with a minus sign in front where it is
/// negative.
pub open spec fn decimal(n: int) -> Seq<char> {
    if n < 0 {
        seq!['-'] + digits((-n) as nat)
    } else {
        digits(n as nat)
    }
}

/// Whether a text holds digits and minus signs only.
pub open spec fn is_numeric(text: Seq<char>) -> bool {
    forall|i: int|
        0 <= i < text.len() ==> (#[trigger] text[i]) == '-' || digit_chars().contains(text[i])
}

/// The digits of a number are digits, and there is at least one.
pub proof fn lemma_digits_are_numeric(n: nat)
    ensures
        digits(n).len() > 0,
        is_numeric(digits(n)),
    decreases n,
{
    if n < 10 {
        assert(digit_chars()[n as int] == digits(n)[0]);
    } else {
        lemma_digits_are_numeric(n / 10);
        let front = digits(n / 10);
        let last = digit_chars()[(n % 10) as int];
        assert forall|i: int| 0 <= i < digits(n).len() implies (#[trigger] digits(n)[i]) == '-'
            || digit_chars().contains(digits(n)[i]) by {
            if i < front.len() {
                assert(digits(n)[i] == front[i]);
            } else {
                assert(digits(n)[i] == last);
            }
        }
    }
}

/// A timestamp is written into a statement as digits behind at most one
/// minus sign: nothing that is written for a bound can be taken for
/// anything but a number.
pub proof fn lemma_decimal_is_numeric(n: int)
    ensures
        decimal(n).len() > 0,
        is_numeric(decimal(n)),
{
    if n < 0 {
        lemma_digits_are_numeric((-n) as nat);
        let rest = digits((-n) as nat);
        assert forall|i: int| 0 <= i < decimal(n).len() implies (#[trigger] decimal(n)[i]) == '-'
            || digit_chars().contains(decimal(n)[i]) by {
            if i > 0 {
                assert(decimal(n)[i] == rest[i - 1]);
            }
        }
    } else {
        lemma_digits_are_numeric(n as nat);
    }
}

/// The text of one digit.
fn digit_text(digit: u64) -> (text: &'static str)
    requires
        digit < 10,
    ensures
        text@ == seq![digit_chars()[digit as int]],
{
    proof {
        reveal_strlit("0");
        reveal_strlit("1");
        reveal_strlit("2");
        reveal_strlit("3");
        reveal_strlit("4");
        reveal_strlit("5");
        reveal_strlit("6");
        reveal_strlit("7");
        reveal_strlit("8");
        reveal_strlit("9");
    }
    let text = if digit == 0 {
        "0"
    } else if digit == 1 {
        "1"
    } else if digit == 2 {
        "2"
    } else if digit == 3 {
        "3"
    } else if digit == 4 {
        "4"
    } else if digit == 5 {
        "5"
    } else if digit == 6 {
        "6"
    } else if digit == 7 {
        "7"
    } else if digit == 8 {
        "8"
    } else {
        "9"
    };
    assert(text@ =~= seq![digit_chars()[digit as int]]);
    text
}

/// Writes the decimal digits of `n` behind `text`.
pub fn push_digits(text: &mut String, n: u64)
    ensures
        final(text)@ == old(text)@ + digits(n as nat),
    decreases n,
{
    if n >= 10 {
        push_digits(text, n / 10);
    }
    let ghost before = text@;
    text.append(digit_text(n % 10));
    proof {
        if n >= 10 {
            assert(old(text)@ + digits(n as nat) =~= before + seq![digit_chars()[(n % 10) as int]]);
        }
    }
}

/// Writes `n` in decimal behind `text`.
pub fn push_decimal(text: &mut String, n: i64)
    ensures
        final(text)@ == old(text)@ + decimal(n as int),
{
    if n < 0 {
        proof {
            reveal_strlit("-");
        }
        text.append("-");
        let magnitude: u64 = if n == i64::MIN {
            0x8000_0000_0000_0000
        } else {
            (-n) as u64
        };
        push_digits(text, magnitude);
        assert(final(text)@ =~= old(text)@ + decimal(n as int)) by {
            assert("-"@ =~= seq!['-']);
        }
    } else {
        push_digits(text, n as u64);
    }
}

/// One condition of a range query on a row of the log.
#[derive(Clone, Copy, Debug, PartialEq, Eq)]
pub enum Clause {
    /// The row's timestamp is at least this.
    AtLeast(i64),
    /// The row's timestamp is above this.
    Above(i64),
    /// The row's timestamp is at most this.
    AtMost(i64),
    /// The row's timestamp is below this.
    Below(i64),
    /// The row's name is the one that is bound to the statement.
    Named,
}

impl Clause {
    /// Whether a row meets the condition, where `bound_name` is the name
    /// bound to the statement.
    pub open spec fn holds(self, row: EntryView, bound_name: Seq<char>) -> bool {
        match self {
            Clause::AtLeast(ts) => row.timestamp >= ts,
            Clause::Above(ts) => row.timestamp > ts,
            Clause::AtMost(ts) => row.timestamp <= ts,
            Clause::Below(ts) => row.timestamp < ts,
            Clause::Named => row.name == bound_name,
        }
    }

    /// The condition as SQL on a table that holds, for each of its rows, a
    /// lowest timestamp in one column and a highest in another: a condition
    /// from a start bound is on the highest, one from an end bound on the
    /// lowest.
    pub open spec fn text_on(self, highest: Seq<char>, lowest: Seq<char>) -> Seq<char> {
        match self {
            Clause::AtLeast(ts) => highest + " >= "@ + decimal(ts as int),
            Clause::Above(ts) => highest + " > "@ + decimal(ts as int),
            Clause::AtMost(ts) => lowest + " <= "@ + decimal(ts as int),
            Clause::Below(ts) => lowest + " < "@ + decimal(ts as int),
            Clause::Named => "name = ?"@,
        }
    }

    /// The condition as SQL on the log, whose rows hold one timestamp each.
    pub open spec fn text(self) -> Seq<char> {
        self.text_on("ts"@, "ts"@)
    }

    /// Writes the condition as SQL behind `text`.
    pub fn write_on(&self, text: &mut String, highest: &str, lowest: &str)
        ensures
            final(text)@ == old(text)@ + self.text_on(highest@, lowest@),
    {
        match self {
            Clause::AtLeast(ts) => {
                text.append(highest);
                text.append(" >= ");
                push_decimal(text, *ts);
            },
            Clause::Above(ts) => {
                text.append(highest);
                text.append(" > ");
                push_decimal(text, *ts);
            },
            Clause::AtMost(ts) => {
                text.append(lowest);
                text.append(" <= ");
                push_decimal(text, *ts);
            },
            Clause::Below(ts) => {
                text.append(lowest);
                text.append(" < ");
                push_decimal(text, *ts);
            },
            Clause::Named => {
                text.append("name = ?");
            },
        }
        assert(final(text)@ =~= old(text)@ + self.text_on(highest@, lowest@));
    }

    /// Writes the condition as SQL on the log behind `text`.
    pub fn write(&self, text: &mut String)
        ensures
            final(text)@ == old(text)@ + self.text(),
    {
        self.write_on(text, "ts", "ts");
    }
}

/// The conditions of a query: one for each bound that names a timestamp,
/// start before end, and one for the name where one is wanted.
pub open spec fn clauses_of(range: RangeView) -> Seq<Clause> {
    let start = match range.start_bound {
        Bound::Included(ts) => seq![Clause::AtLeast(ts)],
        Bound::Excluded(ts) => seq![Clause::Above(ts)],
        Bound::Unbounded => Seq::empty(),
    };
    let end = match range.end_bound {
        Bound::Included(ts) => seq![Clause::AtMost(ts)],
        Bound::Excluded(ts) => seq![Clause::Below(ts)],
        Bound::Unbounded => Seq::empty(),
    };
    let name = match range.name {
        Some(_) => seq![Clause::Named],
        None => Seq::empty(),
    };
    start + end + name
}

/// Conditions joined by `and`.
pub open spec fn conjunction(clauses: Seq<Clause>, highest: Seq<char>, lowest: Seq<char>) -> Seq<
    char,
>
    decreases clauses.len(),
{
    if clauses.len() == 0 {
        Seq::empty()
    } else if clauses.len() == 1 {
        clauses[0].text_on(highest, lowest)
    } else {
        conjunction(clauses.drop_last(), highest, lowest) + " and "@ + clauses.last().text_on(
            highest,
            lowest,
        )
    }
}

/// The `where` part of a statement: nothing where there is no condition.
pub open spec fn where_text(clauses: Seq<Clause>, highest: Seq<char>, lowest: Seq<char>) -> Seq<
    char,
> {
    if clauses.len() == 0 {
        Seq::empty()
    } else {
        "where "@ + conjunction(clauses, highest, lowest)
    }
}

/// A whole statement: the prefix alone where there is neither a condition
/// nor a suffix, else prefix, conditions and suffix with one space between
/// each two.
pub open spec fn statement_text_on(
    clauses: Seq<Clause>,
    highest: Seq<char>,
    lowest: Seq<char>,
    prefix: Seq<char>,
    suffix: Seq<char>,
) -> Seq<char> {
    if clauses.len() == 0 && suffix.len() == 0 {
        prefix
    } else {
        prefix + " "@ + where_text(clauses, highest, lowest) + " "@ + suffix
    }
}

/// A whole statement on the log.
pub open spec fn statement_text(clauses: Seq<Clause>, prefix: Seq<char>, suffix: Seq<char>) -> Seq<
    char,
> {
    statement_text_on(clauses, "ts"@, "ts"@, prefix, suffix)
}

/// A whole statement on the compacted log, for the blocks that may hold a
/// row of the query: those whose last timestamp meets the start bound and
/// whose first meets the end bound.
pub open spec fn block_statement_text(
    clauses: Seq<Clause>,
    prefix: Seq<char>,
    suffix: Seq<char>,
) -> Seq<char> {
    statement_text_on(clauses, "end_ts"@, "start_ts"@, prefix, suffix)
}

/// The bounds and the name of a range query, from which its statements are
/// built.
#[derive(Debug)]
pub struct StatementBuilder {
    start_bound: Bound<i64>,
    end_bound: Bound<i64>,
    name: Option<String>,
}

impl View for StatementBuilder {
    type V = RangeView;

    closed spec fn view(&self) -> RangeView {
        RangeView {
            start_bound: self.start_bound,
            end_bound: self.end_bound,
            name: match self.name {
                Some(name) => Some(name@),
                None => None,
            },
        }
    }
}

impl Clone for StatementBuilder {
    fn clone(&self) -> (copy: StatementBuilder)
        ensures
            copy@ == self@,
    {
        StatementBuilder {
            start_bound: self.start_bound,
            end_bound: self.end_bound,
            name: match &self.name {
                Some(name) => Some(name.clone()),
                None => None,
            },
        }
    }
}

impl StatementBuilder {
    /// A builder for the query with these bounds and this name. The bounds
    /// are taken as they are.
    pub fn new(start_bound: Bound<i64>, end_bound: Bound<i64>, name: Option<String>) -> (builder:
        StatementBuilder)
        ensures
            builder@ == (RangeView {
                start_bound,
                end_bound,
                name: match name {
                    Some(name) => Some(name@),
                    None => None,
                },
            }),
    {
        StatementBuilder { start_bound, end_bound, name }
    }

    /// The values to bind to a statement of this builder, in the order of
    /// its placeholders: the name, where one is wanted.
    pub fn params(&self) -> (bound: Vec<String>)
        ensures
            match self@.name {
                Some(name) => bound@.len() == 1 && bound@[0]@ == name,
                None => bound@.len() == 0,
            },
    {
        let mut bound: Vec<String> = Vec::new();
        match &self.name {
            Some(name) => {
                bound.push(name.clone());
            },
            None => {},
        }
        bound
    }

    /// The conditions of the query.
    pub fn clauses(&self) -> (clauses: Vec<Clause>)
        ensures
            clauses@ == clauses_of(self@),
    {
        let mut clauses: Vec<Clause> = Vec::new();
        match self.start_bound {
            Bound::Included(s) => clauses.push(Clause::AtLeast(s)),
            Bound::Excluded(s) => clauses.push(Clause::Above(s)),
            Bound::Unbounded => {},
        }
        match self.end_bound {
            Bound::Included(e) => clauses.push(Clause::AtMost(e)),
            Bound::Excluded(e) => clauses.push(Clause::Below(e)),
            Bound::Unbounded => {},
        }
        if self.name.is_some() {
            clauses.push(Clause::Named);
        }
        assert(clauses@ =~= clauses_of(self@));
        clauses
    }

    /// The statement that starts with `prefix`, restricts it by the
    /// conditions of the query, written on the two columns, and ends with
    /// `suffix`.
    fn statement_on(&self, highest: &str, lowest: &str, prefix: &str, suffix: &str) -> (text:
        String)
        ensures
            text@ == statement_text_on(clauses_of(self@), highest@, lowest@, prefix@, suffix@),
    {
        let clauses = self.clauses();
        let mut text = String::from_str(prefix);
        if clauses.len() == 0 && suffix.unicode_len() == 0 {
            return text;
        }
        text.append(" ");
        let ghost head = text@;
        if clauses.len() > 0 {
            text.append("where ");
            let ghost opened = text@;
            let mut at: usize = 0;
            while at < clauses.len()
                invariant
                    at <= clauses.len(),
                    text@ == opened + conjunction(clauses@.take(at as int), highest@, lowest@),
                decreases clauses.len() - at,
            {
                let ghost done = clauses@.take(at as int);
                let ghost next = clauses@.take(at + 1);
                proof {
                    assert(next.drop_last() =~= done);
                    assert(next.last() == clauses@[at as int]);
                }
                if at > 0 {
                    text.append(" and ");
                }
                clauses[at].write_on(&mut text, highest, lowest);
                proof {
                    if at == 0 {
                        assert(done.len() == 0);
                    }
                    assert(text@ =~= opened + conjunction(next, highest@, lowest@));
                }
                at += 1;
            }
            proof {
                assert(clauses@.take(clauses.len() as int) =~= clauses@);
                assert(text@ =~= head + where_text(clauses@, highest@, lowest@));
            }
        } else {
            assert(text@ =~= head + where_text(clauses@, highest@, lowest@));
        }
        text.append(" ");
        text.append(suffix);
        assert(text@ =~= statement_text_on(
            clauses_of(self@),
            highest@,
            lowest@,
            prefix@,
            suffix@,
        ));
        text
    }

    /// The statement on the log that starts with `prefix`, restricts it to
    /// the rows of the query and ends with `suffix`. The name is never part
    /// of the text: the statement holds a placeholder for it.
    pub fn statement(&self, prefix: &str, suffix: &str) -> (text: String)
        ensures
            text@ == statement_text(clauses_of(self@), prefix@, suffix@),
    {
        self.statement_on("ts", "ts", prefix, suffix)
    }

    /// The statement on the compacted log that starts with `prefix`,
    /// restricts it to the blocks that may hold a row of the query, and ends
    /// with `suffix`.
    pub fn block_statement(&self, prefix: &str, suffix: &str) -> (text: String)
        ensures
            text@ == block_statement_text(clauses_of(self@), prefix@, suffix@),
    {
        self.statement_on("end_ts", "start_ts", prefix, suffix)
    }

    /// Whether the query selects `entry`.
    pub fn matches(&self, entry: &Entry) -> (selected: bool)
        ensures
            selected == self@.matches(entry@),
    {
        let after_start = match self.start_bound {
            Bound::Included(start_ts) => start_ts <= entry.timestamp,
            Bound::Excluded(start_ts) => start_ts < entry.timestamp,
            Bound::Unbounded => true,
        };
        let before_end = match self.end_bound {
            Bound::Included(end_ts) => entry.timestamp <= end_ts,
            Bound::Excluded(end_ts) => entry.timestamp < end_ts,
            Bound::Unbounded => true,
        };
        let named = match &self.name {
            Some(name) => entry.name == *name,
            None => true,
        };
        after_start && before_end && named
    }
}

/// A row meets every condition of a query exactly if the query selects it,
/// where the name that the query wants is the one bound to the statement.
pub proof fn lemma_clauses_mean_the_range(range: RangeView, row: EntryView, bound_name: Seq<char>)
    requires
        range.name matches Some(name) ==> name == bound_name,
    ensures
        range.matches(row) <==> forall|i: int|
            0 <= i < clauses_of(range).len() ==> (#[trigger] clauses_of(range)[i]).holds(
                row,
                bound_name,
            ),
{
    let clauses = clauses_of(range);
    let start = match range.start_bound {
        Bound::Included(ts) => seq![Clause::AtLeast(ts)],
        Bound::Excluded(ts) => seq![Clause::Above(ts)],
        Bound::Unbounded => Seq::empty(),
    };
    let end = match range.end_bound {
        Bound::Included(ts) => seq![Clause::AtMost(ts)],
        Bound::Excluded(ts) => seq![Clause::Below(ts)],
        Bound::Unbounded => Seq::empty(),
    };
    let name = match range.name {
        Some(_) => seq![Clause::Named],
        None => Seq::empty(),
    };
    assert(clauses == start + end + name);
    if forall|i: int| 0 <= i < clauses.len() ==> (#[trigger] clauses[i]).holds(row, bound_name) {
        if start.len() > 0 {
            assert(clauses[0].holds(row, bound_name));
        }
        if end.len() > 0 {
            assert(clauses[start.len() as int].holds(row, bound_name));
        }
        if name.len() > 0 {
            assert(clauses[(start.len() + end.len()) as int].holds(row, bound_name));
        }
    }
}

impl Clause {
    /// Whether a block meets the condition, where its entries have
    /// timestamps from `start_ts` to `end_ts` and the name `name`.
    pub open spec fn holds_of_block(
        self,
        start_ts: int,
        end_ts: int,
        name: Seq<char>,
        bound_name: Seq<char>,
    ) -> bool {
        match self {
            Clause::AtLeast(ts) => end_ts >= ts,
            Clause::Above(ts) => end_ts > ts,
            Clause::AtMost(ts) => start_ts <= ts,
            Clause::Below(ts) => start_ts < ts,
            Clause::Named => name == bound_name,
        }
    }
}

/// No selected entry is missed among the blocks: a block that holds an
/// entry which the query selects meets every condition of the query on
/// blocks.
pub proof fn lemma_blocks_of_selected_entries_are_read(
    range: RangeView,
    entry: EntryView,
    start_ts: int,
    end_ts: int,
    bound_name: Seq<char>,
)
    requires
        range.name matches Some(name) ==> name == bound_name,
        range.matches(entry),
        start_ts <= entry.timestamp <= end_ts,
    ensures
        forall|i: int|
            0 <= i < clauses_of(range).len() ==> (#[trigger] clauses_of(range)[i]).holds_of_block(
                start_ts,
                end_ts,
                entry.name,
                bound_name,
            ),
{
    lemma_clauses_mean_the_range(range, entry, bound_name);
    assert forall|i: int| 0 <= i < clauses_of(range).len() implies (#[trigger] clauses_of(
        range,
    )[i]).holds_of_block(start_ts, end_ts, entry.name, bound_name) by {
        assert(clauses_of(range)[i].holds(entry, bound_name));
    }
}

/// The rows that meet every condition of a query, where `bound_name` is the
/// name bound to the statement.
pub open spec fn meeting(range: RangeView, bound_name: Seq<char>) -> spec_fn(EntryView) -> bool {
    |row: EntryView|
        forall|i: int|
            0 <= i < clauses_of(range).len() ==> (#[trigger] clauses_of(range)[i]).holds(
                row,
                bound_name,
            )
}

/// The rows that fail a condition of a query.
pub open spec fn failing(range: RangeView, bound_name: Seq<char>) -> spec_fn(EntryView) -> bool {
    |row: EntryView| !meeting(range, bound_name)(row)
}

/// The statements of a range ask the database for what the in-memory engine
/// does: of any rows, those that meet every condition of the query are the
/// entries that the query selects, in their order and as many, and those
/// that fail one are the entries that a removal leaves.
pub proof fn lemma_statements_select_what_the_range_selects(
    rows: Seq<EntryView>,
    range: RangeView,
    bound_name: Seq<char>,
)
    requires
        range.name matches Some(name) ==> name == bound_name,
    ensures
        rows.filter(meeting(range, bound_name)) == select(rows, range),
        rows.filter(failing(range, bound_name)) == without(rows, range),
{
    assert forall|row: EntryView| #[trigger]
        meeting(range, bound_name)(row) == range.selector()(row) by {
        lemma_clauses_mean_the_range(range, row, bound_name);
    }
    assert(meeting(range, bound_name) =~= range.selector());
    assert forall|row: EntryView| #[trigger]
        failing(range, bound_name)(row) == range.rejector()(row) by {
        lemma_clauses_mean_the_range(range, row, bound_name);
    }
    assert(failing(range, bound_name) =~= range.rejector());
}

} // verus!
