//! The lines of a benchmark. The rates are given as texts: they are made of measured times.
use vstd::prelude::*;

use crate::text::{blanks, decimal, decimal_of, texts};

verus! {

/// A text behind as many blanks as it takes to fill a width.
pub open spec fn set_right(text: Seq<char>, width: nat) -> Seq<char> {
    if text.len() < width {
        blanks((width - text.len()) as nat) + text
    } else {
        text
    }
}

fn pad_left(text: &str, width: usize) -> (out: String)
    ensures
        out@ == set_right(text@, width as nat),
{
    let n: usize = text.unicode_len();
    let mut out: String = String::new();
    let mut i: usize = n;
    assert(out@ =~= blanks(0));
    while i < width
        invariant
            n <= i,
            n < width ==> i <= width,
            n >= width ==> i == n,
            out@ == blanks((i - n) as nat),
        decreases width - i,
    {
        out.push(' ');
        i += 1;
        assert(out@ =~= blanks((i - n) as nat));
    }
    let ghost pad = out@;
    out.append(text);
    assert(n >= width ==> pad + text@ =~= text@);
    out
}

/// What is said before a measurement, given the rate that was asked for and the seconds.
pub open spec fn intro_text(rate: Option<Seq<char>>, seconds: Seq<char>) -> Seq<char> {
    match rate {
        Some(rate) => "Measuring "@ + rate + "/s for "@ + seconds + "s..."@,
        None => "Measuring the ceiling for "@ + seconds + "s (no target rate)..."@,
    }
}

/// What is said before a measurement.
pub fn intro(rate: Option<&str>, seconds: &str) -> (out: String)
    ensures
        out@ == intro_text(
            match rate {
                Some(rate) => Some(rate@),
                None => None,
            },
            seconds@,
        ),
{
    match rate {
        Some(rate) => {
            let mut out: String = "Measuring ".to_owned();
            out.append(rate);
            out.append("/s for ");
            out.append(seconds);
            out.append("s...");
            out
        },
        None => {
            let mut out: String = "Measuring the ceiling for ".to_owned();
            out.append(seconds);
            out.append("s (no target rate)...");
            out
        },
    }
}

/// What a measurement found.
#[derive(Debug)]
pub struct Measured {
    /// The rate that was asked for, if one was.
    pub requested: Option<String>,
    /// The rate at which presses were written.
    pub emitted_rate: String,
    /// The rate at which they came back.
    pub delivered_rate: String,
    /// How many presses were written.
    pub emitted: u64,
    /// How many came back.
    pub delivered: u64,
    /// How many seconds it took.
    pub elapsed: String,
}

/// A rate on a line of its own.
pub open spec fn rate_line(label: Seq<char>, rate: Seq<char>) -> Seq<char> {
    label + set_right(rate, 10) + "/s"@
}

/// The lines of a measurement. Presses that were written and did not come back are counted: that
/// is the number a rate of one's own loop would never show.
pub open spec fn measured_lines(found: Measured) -> Seq<Seq<char>> {
    seq![""@] + (match found.requested {
        Some(rate) => seq![rate_line("  requested   "@, rate@)],
        None => Seq::<Seq<char>>::empty(),
    }) + seq![
        rate_line("  emitted     "@, found.emitted_rate@),
        rate_line("  delivered   "@, found.delivered_rate@),
        ""@,
        decimal(found.emitted as nat) + " presses written over "@ + found.elapsed@
            + "s; the kernel delivered "@ + decimal(found.delivered as nat) + "."@,
    ] + (if found.delivered < found.emitted {
        seq![
            decimal((found.emitted - found.delivered) as nat)
                + " did not arrive: at this rate the kernel or the reader is the bottleneck, not the loop."@,
        ]
    } else {
        Seq::<Seq<char>>::empty()
    })
}

fn push(out: &mut Vec<String>, line: String)
    ensures
        texts(final(out)@) == texts(old(out)@).push(line@),
{
    let ghost before = texts(out@);
    let ghost said = line@;
    out.push(line);
    assert(texts(out@) =~= before.push(said));
}

fn push_rate(out: &mut Vec<String>, label: &str, rate: &str)
    ensures
        texts(final(out)@) == texts(old(out)@).push(rate_line(label@, rate@)),
{
    let mut line: String = label.to_owned();
    line.append(pad_left(rate, 10).as_str());
    line.append("/s");
    push(out, line);
}

/// The lines of a measurement.
pub fn report(found: &Measured) -> (out: Vec<String>)
    ensures
        texts(out@) == measured_lines(*found),
{
    let mut out: Vec<String> = Vec::new();
    assert(texts(out@) =~= seq![]);
    push(&mut out, "".to_owned());
    if let Some(rate) = &found.requested {
        push_rate(&mut out, "  requested   ", rate.as_str());
    }
    push_rate(&mut out, "  emitted     ", found.emitted_rate.as_str());
    push_rate(&mut out, "  delivered   ", found.delivered_rate.as_str());
    push(&mut out, "".to_owned());
    let mut line: String = decimal_of(found.emitted);
    line.append(" presses written over ");
    line.append(found.elapsed.as_str());
    line.append("s; the kernel delivered ");
    line.append(decimal_of(found.delivered).as_str());
    line.append(".");
    push(&mut out, line);
    if found.delivered < found.emitted {
        let mut line: String = decimal_of(found.emitted - found.delivered);
        line.append(
            " did not arrive: at this rate the kernel or the reader is the bottleneck, not the loop.",
        );
        push(&mut out, line);
    }
    assert(texts(out@) =~= measured_lines(*found));
    out
}

/// The line that is rewritten while a measurement runs.
pub open spec fn progress_text(
    elapsed: Seq<char>,
    emitting: Seq<char>,
    delivered: Seq<char>,
) -> Seq<char> {
    "  "@ + set_right(elapsed, 5) + "s   emitting "@ + set_right(emitting, 8) + "/s   delivered "@
        + set_right(delivered, 8) + "/s"@
}

/// The line that is rewritten while a measurement runs, given the seconds and both rates.
pub fn progress(elapsed: &str, emitting: &str, delivered: &str) -> (line: String)
    ensures
        line@ == progress_text(elapsed@, emitting@, delivered@),
{
    let mut line: String = "  ".to_owned();
    line.append(pad_left(elapsed, 5).as_str());
    line.append("s   emitting ");
    line.append(pad_left(emitting, 8).as_str());
    line.append("/s   delivered ");
    line.append(pad_left(delivered, 8).as_str());
    line.append("/s");
    line
}

/// What is said where presses cannot be read back.
pub const NO_DEVICES: &'static str = "bench needs the device backend: it measures delivery by reading its own events back, and only /dev/input can be read back.";

/// A number is set to the right of its column: blanks before it, and nothing of it cut.
pub proof fn law_a_number_is_set_to_the_right(text: Seq<char>, width: nat)
    ensures
        set_right(text, width).len() == (if text.len() < width {
            width
        } else {
            text.len()
        }),
        set_right(text, width).skip(set_right(text, width).len() - text.len()) == text,
        forall|i: int|
            0 <= i < set_right(text, width).len() - text.len() ==> #[trigger] set_right(
                text,
                width,
            )[i] == ' ',
{
    assert(set_right(text, width).skip(set_right(text, width).len() - text.len()) =~= text);
}

/// A report has a line for what was asked only where a rate was asked for, and one for what did not
/// arrive only where less arrived than was written.
pub proof fn law_a_report_has_what_there_is_to_say(found: Measured)
    ensures
        measured_lines(found).len() == 5 + (if found.requested is Some {
            1int
        } else {
            0
        }) + (if found.delivered < found.emitted {
            1int
        } else {
            0
        }),
        found.delivered < found.emitted ==> measured_lines(found).last() == decimal(
            (found.emitted - found.delivered) as nat,
        )
            + " did not arrive: at this rate the kernel or the reader is the bottleneck, not the loop."@,
        found.requested matches Some(rate) ==> measured_lines(found)[1] == "  requested   "@
            + set_right(rate@, 10) + "/s"@,
{
}

/// A measurement is announced with its rate where one was asked for, and as one of the ceiling where
/// none was.
pub proof fn law_a_measurement_says_what_it_measures(rate: Seq<char>, seconds: Seq<char>)
    ensures
        intro_text(Some(rate), seconds) == "Measuring "@ + rate + "/s for "@ + seconds + "s..."@,
        intro_text(None, seconds) == "Measuring the ceiling for "@ + seconds
            + "s (no target rate)..."@,
{
}

} // verus!
