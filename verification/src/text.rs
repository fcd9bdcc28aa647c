//! Plain text work on what a command wrote: cutting it into lines, and
//! writing a number in decimal.

use vstd::prelude::*;
use vstd::string::*;

verus! {

/// The byte that ends a line.
pub const LINE_FEED: u8 = 0x0a;

/// The byte that may stand before a line feed and then belongs to the line's end.
pub const CARRIAGE_RETURN: u8 = 0x0d;

/// Where the first line of `text` ends: the place of its first line feed, or
/// its length where it has none.
pub open spec fn line_end(text: Seq<u8>) -> nat
    decreases text.len(),
{
    if text.len() == 0 || text[0] == LINE_FEED {
        0
    } else {
        1 + line_end(text.skip(1))
    }
}

/// `line` without the carriage return at its end, if it has one there.
pub open spec fn without_carriage_return(line: Seq<u8>) -> Seq<u8> {
    if line.len() > 0 && line.last() == CARRIAGE_RETURN {
        line.drop_last()
    } else {
        line
    }
}

/// The lines of `text`. A line ends at a line feed, or at a carriage return
/// with a line feed behind it; neither belongs to the line. What follows the
/// last line feed is a line too, as it stands, unless it is empty.
pub open spec fn lines(text: Seq<u8>) -> Seq<Seq<u8>>
    decreases text.len(),
{
    if text.len() == 0 {
        Seq::empty()
    } else if line_end(text) >= text.len() {
        seq![text]
    } else {
        seq![without_carriage_return(text.take(line_end(text) as int))] + lines(
            text.skip(line_end(text) as int + 1),
        )
    }
}

/// `line_end` is the place `end` before which no line feed stands and which
/// holds one, or is the text's end.
pub proof fn lemma_line_end(text: Seq<u8>, end: int)
    requires
        0 <= end <= text.len(),
        forall|k: int| 0 <= k < end ==> text[k] != LINE_FEED,
        end < text.len() ==> text[end] == LINE_FEED,
    ensures
        line_end(text) == end,
    decreases end,
{
    if end > 0 {
        let rest = text.skip(1);
        assert forall|k: int| 0 <= k < end - 1 implies rest[k] != LINE_FEED by {
            assert(rest[k] == text[k + 1]);
        }
        lemma_line_end(rest, end - 1);
    }
}

/// What `line_end` names: no line feed stands before that place, and one
/// stands at it unless it is the text's end.
pub proof fn lemma_line_end_is_first(text: Seq<u8>)
    ensures
        line_end(text) <= text.len(),
        forall|k: int| 0 <= k < line_end(text) ==> text[k] != LINE_FEED,
        line_end(text) < text.len() ==> text[line_end(text) as int] == LINE_FEED,
    decreases text.len(),
{
    if text.len() > 0 && text[0] != LINE_FEED {
        let rest = text.skip(1);
        lemma_line_end_is_first(rest);
        assert forall|k: int| 0 <= k < line_end(text) implies text[k] != LINE_FEED by {
            if k > 0 {
                assert(rest[k - 1] == text[k]);
            }
        }
        if line_end(text) < text.len() {
            assert(rest[line_end(rest) as int] == text[line_end(text) as int]);
        }
    }
}

/// A line is one line: none of the lines of a text holds a line feed.
pub proof fn lemma_lines_hold_no_line_feed(text: Seq<u8>)
    ensures
        forall|i: int|
            0 <= i < lines(text).len() ==> !(#[trigger] lines(text)[i]).contains(LINE_FEED),
    decreases text.len(),
{
    if text.len() > 0 {
        lemma_line_end_is_first(text);
        let end = line_end(text) as int;
        if end < text.len() {
            let first = without_carriage_return(text.take(end));
            let rest = text.skip(end + 1);
            lemma_lines_hold_no_line_feed(rest);
            assert forall|k: int| 0 <= k < first.len() implies first[k] != LINE_FEED by {
                assert(first[k] == text[k]);
            }
            assert forall|i: int| 0 <= i < lines(text).len() implies !(#[trigger] lines(
                text,
            )[i]).contains(LINE_FEED) by {
                if i > 0 {
                    assert(lines(text)[i] == lines(rest)[i - 1]);
                }
            }
        }
    }
}

/// Splits `text` into its lines.
pub fn split_lines(text: &[u8]) -> (result: Vec<Vec<u8>>)
    ensures
        result@.len() == lines(text@).len(),
        forall|i: int| 0 <= i < result@.len() ==> (#[trigger] result@[i])@ == lines(text@)[i],
{
    let mut result: Vec<Vec<u8>> = Vec::new();
    let mut line: Vec<u8> = Vec::new();
    let ghost mut done: Seq<Seq<u8>> = Seq::empty();
    let ghost mut start: int = 0;
    let mut i: usize = 0;
    proof {
        assert(text@.skip(0) == text@);
    }
    while i < text.len()
        invariant
            0 <= start <= i <= text@.len(),
            line@ == text@.subrange(start, i as int),
            forall|k: int| start <= k < i ==> text@[k] != LINE_FEED,
            done.len() == result@.len(),
            forall|j: int| 0 <= j < result@.len() ==> (#[trigger] result@[j])@ == done[j],
            lines(text@) == done + lines(text@.skip(start)),
        decreases text@.len() - i,
    {
        let byte = text[i];
        if byte == LINE_FEED {
            let ghost rest = text@.skip(start);
            let ghost raw = line@;
            proof {
                assert forall|k: int| 0 <= k < i - start implies rest[k] != LINE_FEED by {
                    assert(rest[k] == text@[start + k]);
                }
                lemma_line_end(rest, i - start);
                assert(rest.take(i - start) == raw);
                assert(rest.skip(i - start + 1) == text@.skip(i + 1));
            }
            if line.len() > 0 && line[line.len() - 1] == CARRIAGE_RETURN {
                line.pop();
            }
            proof {
                let old_done = done;
                done = done.push(line@);
                assert(old_done + (seq![line@] + lines(text@.skip(i + 1))) =~= done + lines(
                    text@.skip(i + 1),
                ));
                start = i + 1;
            }
            result.push(line);
            line = Vec::new();
        } else {
            line.push(byte);
        }
        i += 1;
    }
    let ghost rest = text@.skip(start);
    proof {
        if rest.len() > 0 {
            assert forall|k: int| 0 <= k < rest.len() implies rest[k] != LINE_FEED by {
                assert(rest[k] == text@[start + k]);
            }
            lemma_line_end(rest, rest.len() as int);
        }
    }
    if line.len() > 0 {
        proof {
            done = done.push(line@);
        }
        result.push(line);
    }
    result
}

/// The ten digits.
pub open spec fn digits() -> Seq<char> {
    "0123456789"@
}

/// `n` written in decimal, without leading zeros.
pub open spec fn decimal(n: nat) -> Seq<char>
    decreases n,
{
    if n < 10 {
        seq![digits()[n as int]]
    } else {
        decimal(n / 10).push(digits()[(n % 10) as int])
    }
}

/// The text of `n` in decimal.
pub fn decimal_text(n: usize) -> (text: String)
    ensures
        text@ == decimal(n as nat),
{
    let digits = "0123456789";
    proof {
        reveal_strlit("0123456789");
    }
    let last = n % 10;
    let mut text = String::from_str(digits.substring_ascii(last, last + 1));
    let mut rest = n / 10;
    while rest > 0
        invariant
            digits@ == self::digits(),
            digits.is_ascii(),
            digits@.len() == 10,
            rest == 0 ==> decimal(n as nat) == text@,
            rest > 0 ==> decimal(n as nat) == decimal(rest as nat) + text@,
        decreases rest,
    {
        let digit = rest % 10;
        let ghost before = text@;
        text = String::from_str(digits.substring_ascii(digit, digit + 1)).concat(text.as_str());
        proof {
            let head = seq![self::digits()[digit as int]];
            assert(text@ =~= head + before);
            if rest >= 10 {
                assert(decimal(rest as nat) + before =~= decimal((rest / 10) as nat) + (head
                    + before));
            } else {
                assert(decimal(rest as nat) + before =~= head + before);
            }
        }
        rest = rest / 10;
    }
    text
}

} // verus!
