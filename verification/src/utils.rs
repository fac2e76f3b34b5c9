//! Helpers shared by the model: calendar time, random draws and text lines.

use vstd::prelude::*;

pub mod pattern;
pub mod random;
pub mod time_utils;

verus! {

/// A line without the carriage return that may end it.
pub open spec fn strip_cr(line: Seq<char>) -> Seq<char> {
    if line.len() > 0 && line.last() == '\r' {
        line.drop_last()
    } else {
        line
    }
}

/// The lines that a line feed has ended in `text`, and what follows the
/// last of them.
pub open spec fn split_lines(text: Seq<char>) -> (Seq<Seq<char>>, Seq<char>)
    decreases text.len(),
{
    if text.len() == 0 {
        (Seq::empty(), Seq::empty())
    } else {
        let (lines, pending) = split_lines(text.drop_last());
        if text.last() == '\n' {
            (lines.push(strip_cr(pending)), Seq::empty())
        } else {
            (lines, pending.push(text.last()))
        }
    }
}

/// The lines of `text`. A line feed ends a line, and a carriage return
/// just before it goes with it. What follows the last line feed is a line too,
/// unless it is empty.
pub open spec fn lines_of(text: Seq<char>) -> Seq<Seq<char>> {
    let (lines, pending) = split_lines(text);
    if pending.len() > 0 {
        lines.push(pending)
    } else {
        lines
    }
}

/// No line holds a line feed.
pub proof fn lemma_lines_hold_no_line_feed(text: Seq<char>)
    ensures
        forall|i: int, j: int|
            0 <= i < lines_of(text).len() && 0 <= j < lines_of(text)[i].len() ==> #[trigger] lines_of(
                text,
            )[i][j] != '\n',
{
    lemma_split_holds_no_line_feed(text);
}

/// Neither the lines that have ended nor what follows them hold a line
/// feed.
proof fn lemma_split_holds_no_line_feed(text: Seq<char>)
    ensures
        forall|i: int, j: int|
            0 <= i < split_lines(text).0.len() && 0 <= j < split_lines(text).0[i].len()
                ==> #[trigger] split_lines(text).0[i][j] != '\n',
        forall|j: int| 0 <= j < split_lines(text).1.len() ==> #[trigger] split_lines(text).1[j] != '\n',
    decreases text.len(),
{
    if text.len() > 0 {
        lemma_split_holds_no_line_feed(text.drop_last());
        let earlier = split_lines(text.drop_last());
        let now = split_lines(text);
        if text.last() == '\n' {
            let ended = strip_cr(earlier.1);
            assert(now.0 == earlier.0.push(ended));
            assert forall|i: int, j: int|
                0 <= i < now.0.len() && 0 <= j < now.0[i].len() implies #[trigger] now.0[i][j]
                != '\n' by {
                if i < earlier.0.len() {
                    assert(now.0[i] == earlier.0[i]);
                    assert(earlier.0[i][j] != '\n');
                } else {
                    assert(now.0[i] == ended);
                    assert(ended[j] == earlier.1[j]);
                }
            }
        } else {
            assert(now.0 == earlier.0);
            assert forall|j: int| 0 <= j < now.1.len() implies #[trigger] now.1[j] != '\n' by {
                if j < earlier.1.len() {
                    assert(now.1[j] == earlier.1[j]);
                }
            }
        }
    }
}

/// What each of the strings holds.
pub open spec fn views(texts: Seq<String>) -> Seq<Seq<char>> {
    Seq::new(texts.len(), |i: int| texts[i]@)
}

/// Splits `text` into its lines.
pub fn read_all_lines(text: &str) -> (lines: Vec<String>)
    ensures
        views(lines@) == lines_of(text@),
{
    let mut lines: Vec<String> = Vec::new();
    let mut current = String::new();
    let mut held_cr = false;
    assert(text@.take(0) =~= Seq::<char>::empty());
    for c in it: text.chars()
        invariant
            it.seq() == text@,
            split_lines(text@.take(it.index() as int)) == (
                views(lines@),
                if held_cr {
                    current@.push('\r')
                } else {
                    current@
                },
            ),
            !held_cr ==> strip_cr(current@) == current@,
    {
        let ghost prefix = text@.take(it.index() + 1);
        assert(prefix.drop_last() =~= text@.take(it.index() as int));
        assert(prefix.last() == c);
        let ghost before = lines@;
        let ghost pending = current@;
        if c == '\n' {
            assert(pending.push('\r').drop_last() =~= pending);
            lines.push(current);
            current = String::new();
            held_cr = false;
            assert(views(lines@) =~= views(before).push(pending));
        } else {
            if held_cr {
                current.push('\r');
            }
            if c == '\r' {
                held_cr = true;
            } else {
                current.push(c);
                held_cr = false;
            }
        }
    }
    assert(text@.take(text@.len() as int) =~= text@);
    if held_cr {
        current.push('\r');
    }
    if !current.as_str().is_empty() {
        let ghost before = lines@;
        lines.push(current);
        assert(views(lines@) =~= views(before).push(lines@.last()@));
    }
    lines
}

} // verus!
