//! The history of calculations and its display.

use vstd::prelude::*;
use vstd::string::StringExecFns;
use crate::text::is_digit;

verus! {

/// One calculation: what was done, on what, with which result, and when.
#[derive(Debug, Clone)]
pub struct Calculation {
    /// The type of operation performed.
    pub operation: String,
    /// The mathematical expression or operands used.
    pub expression: String,
    /// The result of the calculation.
    pub result: String,
    /// The date and time when the calculation was performed.
    pub timestamp: String,
}

/// The shape of a date and time written with `"%Y-%m-%d %H:%M:%S"`: a year
/// of at least four characters (digits, possibly after a sign), then
/// `-MM-DD hh:mm:ss` with two digits in each field.
pub open spec fn is_timestamp(s: Seq<char>) -> bool {
    let k = s.len() - 15;
    &&& s.len() >= 19
    &&& (is_digit(s[0]) || s[0] == '+' || s[0] == '-')
    &&& forall|i: int| 1 <= i < k ==> is_digit(#[trigger] s[i])
    &&& s[k] == '-'
    &&& is_digit(s[k + 1]) && is_digit(s[k + 2])
    &&& s[k + 3] == '-'
    &&& is_digit(s[k + 4]) && is_digit(s[k + 5])
    &&& s[k + 6] == ' '
    &&& is_digit(s[k + 7]) && is_digit(s[k + 8])
    &&& s[k + 9] == ':'
    &&& is_digit(s[k + 10]) && is_digit(s[k + 11])
    &&& s[k + 12] == ':'
    &&& is_digit(s[k + 13]) && is_digit(s[k + 14])
}

/// The local date and time: calls `chrono::Local::now()` and formats it
/// with `"%Y-%m-%d %H:%M:%S"`.  Which instant it shows depends on the
/// clock and the time zone; what is stated is the shape that chrono's
/// specifiers give every outcome: `%Y` writes the year zero-padded to four
/// digits, with a sign outside 0 to 9999, and `%m %d %H %M %S` write two
/// zero-padded digits each.
#[verifier::external_body]
fn local_timestamp() -> (s: String)
    ensures
        is_timestamp(s@),
{
    chrono::Local::now().format("%Y-%m-%d %H:%M:%S").to_string()
}

impl Calculation {
    /// A calculation with the given timestamp.
    pub fn with_timestamp(operation: &str, expression: &str, result: &str, timestamp: &str) -> (c:
        Calculation)
        ensures
            c.operation@ == operation@,
            c.expression@ == expression@,
            c.result@ == result@,
            c.timestamp@ == timestamp@,
    {
        Calculation {
            operation: String::from_str(operation),
            expression: String::from_str(expression),
            result: String::from_str(result),
            timestamp: String::from_str(timestamp),
        }
    }

    /// Creates a new calculation stamped with the current local time.
    pub fn new(operation: &str, expression: &str, result: &str) -> (c: Calculation)
        ensures
            c.operation@ == operation@,
            c.expression@ == expression@,
            c.result@ == result@,
            is_timestamp(c.timestamp@),
    {
        let now = local_timestamp();
        Calculation::with_timestamp(operation, expression, result, now.as_str())
    }
}

/// The calculations made, oldest first.
pub struct CalculationHistory {
    calculations: Vec<Calculation>,
}

impl View for CalculationHistory {
    type V = Seq<Calculation>;

    closed spec fn view(&self) -> Seq<Calculation> {
        self.calculations@
    }
}

/// The decimal digit for `d`.
pub open spec fn digit_char(d: nat) -> char {
    if d == 0 {
        '0'
    } else if d == 1 {
        '1'
    } else if d == 2 {
        '2'
    } else if d == 3 {
        '3'
    } else if d == 4 {
        '4'
    } else if d == 5 {
        '5'
    } else if d == 6 {
        '6'
    } else if d == 7 {
        '7'
    } else if d == 8 {
        '8'
    } else {
        '9'
    }
}

/// The decimal notation of `n`, without leading zeros.
pub open spec fn decimal(n: nat) -> Seq<char>
    decreases n,
{
    if n < 10 {
        seq![digit_char(n)]
    } else {
        decimal(n / 10).push(digit_char(n % 10))
    }
}

fn digit_of(d: usize) -> (c: char)
    requires
        d < 10,
    ensures
        c == digit_char(d as nat),
{
    if d == 0 {
        '0'
    } else if d == 1 {
        '1'
    } else if d == 2 {
        '2'
    } else if d == 3 {
        '3'
    } else if d == 4 {
        '4'
    } else if d == 5 {
        '5'
    } else if d == 6 {
        '6'
    } else if d == 7 {
        '7'
    } else if d == 8 {
        '8'
    } else {
        '9'
    }
}

/// The number that a string of decimal digits stands for, read in base ten.
pub open spec fn numeral_value(s: Seq<char>) -> int
    decreases s.len(),
{
    if s.len() == 0 {
        0
    } else {
        numeral_value(s.drop_last()) * 10 + (s.last() as int - '0' as int)
    }
}

/// The decimal notation of `n` is a string of ASCII digits, without a
/// leading zero unless it is the single digit of zero, and read back in
/// base ten it gives `n`.
pub proof fn law_decimal_notation(n: nat)
    ensures
        decimal(n).len() > 0,
        forall|i: int| 0 <= i < decimal(n).len() ==> is_digit(#[trigger] decimal(n)[i]),
        decimal(n)[0] == '0' ==> n == 0,
        numeral_value(decimal(n)) == n,
    decreases n,
{
    if n < 10 {
        let s = decimal(n);
        assert(s == seq![digit_char(n)]);
        assert(s.drop_last() =~= Seq::<char>::empty());
        assert(s.last() == digit_char(n));
        assert(digit_char(n) as int - '0' as int == n);
        assert(numeral_value(s.drop_last()) == 0);
        assert(numeral_value(s) == numeral_value(s.drop_last()) * 10 + (s.last() as int - '0' as int));
    } else {
        let q = n / 10;
        law_decimal_notation(q);
        let s = decimal(n);
        assert(s == decimal(q).push(digit_char(n % 10)));
        assert(s.drop_last() =~= decimal(q));
        assert(s.last() == digit_char(n % 10));
        assert(digit_char(n % 10) as int - '0' as int == n % 10);
        assert(numeral_value(s) == numeral_value(decimal(q)) * 10 + (n % 10));
        assert(q * 10 + n % 10 == n);
        assert(s[0] == decimal(q)[0]);
        assert forall|i: int| 0 <= i < s.len() implies is_digit(#[trigger] s[i]) by {
            if i < decimal(q).len() {
                assert(s[i] == decimal(q)[i]);
            }
        }
    }
}

/// Appends the decimal notation of `n`.
fn push_decimal(s: &mut String, n: usize)
    ensures
        final(s)@ == old(s)@ + decimal(n as nat),
    decreases n,
{
    if n >= 10 {
        push_decimal(s, n / 10);
    }
    s.push(digit_of(n % 10));
    assert(final(s)@ =~= old(s)@ + decimal(n as nat)) by {
        if n >= 10 {
            assert(decimal(n as nat) == decimal((n / 10) as nat).push(digit_char((n % 10) as nat)));
        }
    }
}

/// The line that shows calculation `c` at position `i` (counted from 0).
pub open spec fn history_line(i: nat, c: Calculation) -> Seq<char> {
    decimal(i + 1) + ". Operation: "@ + c.operation@ + ", Expression: "@ + c.expression@
        + ", Result: "@ + c.result@ + ", Timestamp: "@ + c.timestamp@
}

/// The lines that show a history.
pub open spec fn history_lines(h: Seq<Calculation>) -> Seq<Seq<char>> {
    if h.len() == 0 {
        seq!["No history available."@]
    } else {
        seq!["History of calculations:"@] + Seq::new(h.len(), |i: int| history_line(i as nat, h[i]))
    }
}

impl CalculationHistory {
    /// Creates a new empty history.
    pub fn new() -> (h: CalculationHistory)
        ensures
            h@ == Seq::<Calculation>::empty(),
    {
        CalculationHistory { calculations: Vec::new() }
    }

    /// The calculations, oldest first.
    pub fn calculations(&self) -> (r: &[Calculation])
        ensures
            r@ == self@,
    {
        self.calculations.as_slice()
    }

    /// Replaces the whole history, as loading it from storage does.
    pub fn replace_all(&mut self, calculations: Vec<Calculation>)
        ensures
            final(self)@ == calculations@,
    {
        self.calculations = calculations;
    }

    /// Appends a calculation that is already stamped.
    pub fn push_calculation(&mut self, calculation: Calculation)
        ensures
            final(self)@ == old(self)@.push(calculation),
    {
        self.calculations.push(calculation);
    }

    /// Adds a new calculation to the history, stamped with the current
    /// local time.
    pub fn add_calculation(&mut self, operation: &str, expression: &str, result: &str)
        ensures
            final(self)@.len() == old(self)@.len() + 1,
            final(self)@.take(old(self)@.len() as int) == old(self)@,
            final(self)@.last().operation@ == operation@,
            final(self)@.last().expression@ == expression@,
            final(self)@.last().result@ == result@,
            is_timestamp(final(self)@.last().timestamp@),
    {
        let calc = Calculation::new(operation, expression, result);
        self.push_calculation(calc);
        assert(final(self)@.take(old(self)@.len() as int) =~= old(self)@);
    }

    /// Clears the calculation history.
    pub fn clear(&mut self)
        ensures
            final(self)@ == Seq::<Calculation>::empty(),
    {
        self.calculations.clear();
    }

    /// Returns true if the history is empty.
    pub fn is_empty(&self) -> (b: bool)
        ensures
            b == (self@.len() == 0),
    {
        self.calculations.len() == 0
    }

    /// The lines that display the history, in order.
    pub fn display_lines(&self) -> (lines: Vec<String>)
        ensures
            lines@.map_values(|l: String| l@) == history_lines(self@),
    {
        let mut lines: Vec<String> = Vec::new();
        if self.calculations.len() == 0 {
            lines.push(String::from_str("No history available."));
            assert(lines@.map_values(|l: String| l@) =~= history_lines(self@));
            return lines;
        }
        lines.push(String::from_str("History of calculations:"));
        let n = self.calculations.len();
        let mut i: usize = 0;
        while i < n
            invariant
                n == self@.len(),
                n > 0,
                i <= n,
                lines@.len() == i + 1,
                lines@.map_values(|l: String| l@) == history_lines(self@).take(i + 1),
            decreases n - i,
        {
            let c = &self.calculations[i];
            let mut line = String::new();
            push_decimal(&mut line, i + 1);
            line.append(". Operation: ");
            line.append(c.operation.as_str());
            line.append(", Expression: ");
            line.append(c.expression.as_str());
            line.append(", Result: ");
            line.append(c.result.as_str());
            line.append(", Timestamp: ");
            line.append(c.timestamp.as_str());
            assert(line@ =~= history_line(i as nat, self@[i as int]));
            let ghost prev = lines@;
            lines.push(line);
            assert(lines@.map_values(|l: String| l@) =~= history_lines(self@).take(i + 2)) by {
                assert(prev.map_values(|l: String| l@) == history_lines(self@).take(i + 1));
            }
            i = i + 1;
        }
        assert(history_lines(self@).take(n + 1) =~= history_lines(self@));
        lines
    }
}

/// The display shows one line when the history is empty, and otherwise a
/// header followed by one line per calculation, numbered from 1 in the
/// order the calculations were made.
pub proof fn law_display_lines(h: Seq<Calculation>)
    ensures
        h.len() == 0 ==> history_lines(h) == seq!["No history available."@],
        h.len() > 0 ==> history_lines(h).len() == h.len() + 1,
        forall|i: int| 0 <= i < h.len() ==> #[trigger] history_lines(h)[i + 1] == history_line(i as nat, h[i]),
{
}

/// The line of calculation `i` opens with its number, `i + 1`, written in
/// decimal digits and followed by a dot.
pub proof fn law_line_numbers(h: Seq<Calculation>, i: int)
    requires
        0 <= i < h.len(),
    ensures
        ({
            let line = history_lines(h)[i + 1];
            let k = decimal((i + 1) as nat).len() as int;
            &&& 0 < k < line.len()
            &&& forall|j: int| 0 <= j < k ==> is_digit(#[trigger] line[j])
            &&& numeral_value(line.take(k)) == i + 1
            &&& line[k] == '.'
        }),
{
    law_decimal_notation((i + 1) as nat);
    let d = decimal((i + 1) as nat);
    let line = history_lines(h)[i + 1];
    assert(line == history_line(i as nat, h[i]));
    let k = d.len() as int;
    assert(line.take(k) =~= d);
    assert forall|j: int| 0 <= j < k implies is_digit(#[trigger] line[j]) by {
        assert(line[j] == d[j]);
    }
    let c = h[i];
    let tail = ". Operation: "@ + c.operation@ + ", Expression: "@ + c.expression@ + ", Result: "@
        + c.result@ + ", Timestamp: "@ + c.timestamp@;
    assert(line =~= d + tail);
    reveal_strlit(". Operation: ");
    assert(". Operation: "@.len() > 0 && ". Operation: "@[0] == '.');
    assert(tail[0] == '.');
    assert(line[k] == tail[0]);
}

/// Adding a calculation adds one line at the end of the display, and
/// leaves the lines of the earlier calculations as they were.
pub proof fn law_display_after_push(h: Seq<Calculation>, c: Calculation)
    ensures
        h.len() == 0 ==> history_lines(h.push(c)) == seq![
            "History of calculations:"@,
            history_line(0, c),
        ],
        h.len() > 0 ==> history_lines(h.push(c)) == history_lines(h).push(history_line(h.len(), c)),
{
    let h2 = h.push(c);
    if h.len() == 0 {
        assert(history_lines(h2) =~= seq!["History of calculations:"@, history_line(0, c)]);
    } else {
        assert forall|i: int| 0 <= i < h.len() implies #[trigger] h2[i] == h[i] by {}
        assert(history_lines(h2) =~= history_lines(h).push(history_line(h.len(), c)));
    }
}

} // verus!
