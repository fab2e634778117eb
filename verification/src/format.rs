//! A set of predictions as text, one line per prediction.

use vstd::prelude::*;
use vstd::string::StrSliceExecFns;
use vstd::string::StringExecFns;
use crate::prediction::PredictionView;
use crate::prediction::Predictions;
use crate::prediction::prediction_views;
use crate::time::minutes_between;
use crate::time::minutes_until;

verus! {

/// The character of a decimal digit.
pub open spec fn digit_char(digit: int) -> char
    recommends
        0 <= digit < 10,
{
    if digit == 0 {
        '0'
    } else if digit == 1 {
        '1'
    } else if digit == 2 {
        '2'
    } else if digit == 3 {
        '3'
    } else if digit == 4 {
        '4'
    } else if digit == 5 {
        '5'
    } else if digit == 6 {
        '6'
    } else if digit == 7 {
        '7'
    } else if digit == 8 {
        '8'
    } else {
        '9'
    }
}

/// The decimal digits of a number, without leading zeros.
pub open spec fn decimal_digits(n: nat) -> Seq<char>
    decreases n,
{
    if n < 10 {
        seq![digit_char(n as int)]
    } else {
        decimal_digits(n / 10).push(digit_char((n % 10) as int))
    }
}

/// A number in decimal, with a minus sign where it is negative.
pub open spec fn decimal(n: int) -> Seq<char> {
    if n < 0 {
        seq!['-'] + decimal_digits((-n) as nat)
    } else {
        decimal_digits(n as nat)
    }
}

/// The text behind as many spaces as make it `width` characters long; the
/// text itself where it is as long or longer.
pub open spec fn right_aligned(text: Seq<char>, width: nat) -> Seq<char> {
    if text.len() >= width {
        text
    } else {
        Seq::new((width - text.len()) as nat, |i: int| ' ') + text
    }
}

/// The line for one prediction: the whole minutes from `now` until its
/// time, the line and the destination. Unless `compact`, the minutes are
/// aligned to three characters and the line to four.
pub open spec fn line_of(now: int, prediction: PredictionView, compact: bool) -> Seq<char> {
    let minutes = decimal(minutes_between(now, prediction.estimated_time));
    if compact {
        minutes + "min "@ + prediction.line_name + " "@ + prediction.destination_text + "\n"@
    } else {
        right_aligned(minutes, 3) + "min "@ + right_aligned(prediction.line_name, 4) + " "@
            + prediction.destination_text + "\n"@
    }
}

/// The lines of the predictions, one after the other.
pub open spec fn lines_of(now: int, predictions: Seq<PredictionView>, compact: bool) -> Seq<char>
    decreases predictions.len(),
{
    if predictions.len() == 0 {
        Seq::empty()
    } else {
        lines_of(now, predictions.drop_last(), compact) + line_of(
            now,
            predictions.last(),
            compact,
        )
    }
}

/// The text of one decimal digit.
fn digit_text(digit: u64) -> (text: &'static str)
    requires
        digit < 10,
    ensures
        text@ == seq![digit_char(digit as int)],
{
    proof {
        reveal_strlit("0");
        reveal_strlit("1");
        reveal_strlit("2");
        reveal_strlit("3");
        reveal_strlit("4");
        reveal_strlit("5");
        reveal_strlit("6");
        reveal_strlit("7");
        reveal_strlit("8");
        reveal_strlit("9");
    }
    let text = if digit == 0 {
        "0"
    } else if digit == 1 {
        "1"
    } else if digit == 2 {
        "2"
    } else if digit == 3 {
        "3"
    } else if digit == 4 {
        "4"
    } else if digit == 5 {
        "5"
    } else if digit == 6 {
        "6"
    } else if digit == 7 {
        "7"
    } else if digit == 8 {
        "8"
    } else {
        "9"
    };
    assert(text@ =~= seq![digit_char(digit as int)]);
    text
}

/// Appends the decimal digits of `n`.
fn append_digits(text: &mut String, n: u64)
    ensures
        final(text)@ == old(text)@ + decimal_digits(n as nat),
    decreases n,
{
    if n >= 10 {
        append_digits(text, n / 10);
    }
    text.append(digit_text(n % 10));
    assert(text@ =~= old(text)@ + decimal_digits(n as nat));
}

/// A number in decimal.
fn decimal_text(n: i64) -> (text: String)
    ensures
        text@ == decimal(n as int),
{
    let mut text = String::new();
    if n < 0 {
        proof {
            reveal_strlit("-");
        }
        text.append("-");
        assert(text@ =~= seq!['-']);
        // -(n + 1) cannot overflow, and is one less than the magnitude.
        let magnitude: u64 = (-(n + 1)) as u64 + 1;
        append_digits(&mut text, magnitude);
    } else {
        append_digits(&mut text, n as u64);
    }
    assert(text@ =~= decimal(n as int));
    text
}

/// Appends `piece`, aligned to the right of `width` characters.
fn append_right_aligned(text: &mut String, piece: &str, width: usize)
    ensures
        final(text)@ == old(text)@ + right_aligned(piece@, width as nat),
{
    proof {
        reveal_strlit(" ");
    }
    let len: usize = piece.unicode_len();
    let mut at: usize = len;
    while at < width
        invariant
            len == piece@.len(),
            len <= at,
            at <= width || at == len,
            " "@ == seq![' '],
            text@ == old(text)@ + Seq::new((at - len) as nat, |i: int| ' '),
        decreases width - at,
    {
        text.append(" ");
        at += 1;
        assert(text@ =~= old(text)@ + Seq::new((at - len) as nat, |i: int| ' '));
    }
    text.append(piece);
    assert(text@ =~= old(text)@ + right_aligned(piece@, width as nat));
}

impl Predictions {
    /// The predictions as text, one line each, with the minutes counted
    /// from the moment of capture.
    ///
    /// A line holds the whole minutes until the vehicle is expected, the
    /// word "min", the line and the destination. Unless `compact`, the
    /// minutes are aligned to the right of three characters and the line to
    /// the right of four.
    pub fn format(&self, compact: bool) -> (text: String)
        ensures
            text@ == lines_of(self@.time, self@.predictions, compact),
    {
        let ghost views = prediction_views(self.predictions@);
        let mut text = String::new();
        let mut n: usize = 0;
        assert(text@ =~= lines_of(self@.time, views.take(0), compact));
        while n < self.predictions.len()
            invariant
                n <= self.predictions.len(),
                views == prediction_views(self.predictions@),
                text@ == lines_of(self@.time, views.take(n as int), compact),
            decreases self.predictions.len() - n,
        {
            let ghost before = text@;
            let p = &self.predictions[n];
            let minutes = decimal_text(minutes_until(&self.time, &p.estimated_time));
            if compact {
                text.append(minutes.as_str());
                text.append("min ");
                text.append(p.line_name.as_str());
            } else {
                append_right_aligned(&mut text, minutes.as_str(), 3);
                text.append("min ");
                append_right_aligned(&mut text, p.line_name.as_str(), 4);
            }
            text.append(" ");
            text.append(p.destination_text.as_str());
            text.append("\n");
            proof {
                assert(views.take(n + 1).drop_last() =~= views.take(n as int));
                assert(views.take(n + 1).last() == p@);
                assert(text@ =~= before + line_of(self@.time, p@, compact));
            }
            n += 1;
        }
        assert(views.take(n as int) =~= views);
        text
    }
}

} // verus!
