//! The first lines of a text.
//!
//! A line ends at a line feed; a carriage return that stands directly
//! before that line feed belongs to the line ending. A text that ends in a
//! line ending has no further, empty line after it.

use crate::grouper::texts;
use vstd::prelude::*;
use vstd::std_specs::iter::IteratorSpec;
use vstd::string::*;

verus! {

broadcast use vstd::string::group_string_axioms;

/// `String::push` appends one character.
pub assume_specification[ String::push ](text: &mut String, ch: char)
    ensures
        final(text)@ == old(text)@.push(ch),
;

/// The index of the first line feed at or after `from`, or the length of
/// the text if there is none.
pub open spec fn first_newline(text: Seq<char>, from: int) -> int
    decreases text.len() - from,
{
    if from < 0 || from >= text.len() {
        text.len() as int
    } else if text[from] == '\n' {
        from
    } else {
        first_newline(text, from + 1)
    }
}

/// The line without a carriage return at its end.
pub open spec fn strip_cr(line: Seq<char>) -> Seq<char> {
    if line.len() > 0 && line.last() == '\r' {
        line.drop_last()
    } else {
        line
    }
}

/// The lines of a text, without their line endings.
pub open spec fn lines_of(text: Seq<char>) -> Seq<Seq<char>>
    decreases text.len(),
{
    let end = first_newline(text, 0);
    if text.len() == 0 {
        Seq::empty()
    } else if end < 0 || end >= text.len() {
        seq![text]
    } else {
        seq![strip_cr(text.subrange(0, end))] + lines_of(text.subrange(end + 1, text.len() as int))
    }
}

/// The first `limit` lines of a text, or all of them if there are fewer.
pub open spec fn first_lines(text: Seq<char>, limit: nat) -> Seq<Seq<char>> {
    if lines_of(text).len() <= limit {
        lines_of(text)
    } else {
        lines_of(text).take(limit as int)
    }
}

/// The lines joined by single line feeds.
pub open spec fn join_lines(lines: Seq<Seq<char>>) -> Seq<char>
    decreases lines.len(),
{
    if lines.len() == 0 {
        Seq::empty()
    } else if lines.len() == 1 {
        lines[0]
    } else {
        join_lines(lines.drop_last()) + seq!['\n'] + lines.last()
    }
}

/// The text holds no line feed.
pub open spec fn is_one_line(text: Seq<char>) -> bool {
    forall|i: int| 0 <= i < text.len() ==> #[trigger] text[i] != '\n'
}

/// What `first_newline` returns: the first line feed from `from` on.
pub proof fn lemma_first_newline(text: Seq<char>, from: int)
    requires
        0 <= from <= text.len(),
    ensures
        from <= first_newline(text, from) <= text.len(),
        first_newline(text, from) < text.len() ==> text[first_newline(text, from)] == '\n',
        forall|i: int| from <= i < first_newline(text, from) ==> #[trigger] text[i] != '\n',
    decreases text.len() - from,
{
    if from < text.len() && text[from] != '\n' {
        lemma_first_newline(text, from + 1);
    }
}

/// A text without a line feed is no line if it is empty, and one line
/// otherwise.
pub proof fn lemma_lines_of_one_line(text: Seq<char>)
    requires
        is_one_line(text),
    ensures
        lines_of(text) == if text.len() == 0 {
            Seq::<Seq<char>>::empty()
        } else {
            seq![text]
        },
{
    lemma_first_newline(text, 0);
}

/// A text that starts with a line and its line feed has that line, without
/// its carriage return, before the lines of the rest.
pub proof fn lemma_lines_of_split(line: Seq<char>, rest: Seq<char>)
    requires
        is_one_line(line),
    ensures
        lines_of(line + seq!['\n'] + rest) == seq![strip_cr(line)] + lines_of(rest),
{
    let text = line + seq!['\n'] + rest;
    let end = first_newline(text, 0);
    lemma_first_newline(text, 0);
    assert(text[line.len() as int] == '\n');
    assert(end == line.len()) by {
        if end < line.len() {
            assert(text[end] == line[end]);
        }
    }
    assert(text.subrange(0, end) =~= line);
    assert(text.subrange(end + 1, text.len() as int) =~= rest);
}

/// Collects the first `limit` lines of `content`.
pub fn first_lines_of(content: &str, limit: usize) -> (lines: Vec<String>)
    ensures
        texts(lines@) == first_lines(content@, limit as nat),
{
    let mut done: Vec<String> = Vec::new();
    if limit == 0 {
        assert(texts(done@) =~= first_lines(content@, 0));
        return done;
    }
    let mut current = String::new();
    let mut pending_cr = false;
    let mut chars = content.chars();
    loop
        invariant
            done.len() < limit,
            chars.obeys_prophetic_iter_laws(),
            chars.decrease() is Some,
            is_one_line(current@),
            !pending_cr ==> current@.len() == 0 || current@.last() != '\r',
            lines_of(content@) == texts(done@) + lines_of(
                current@ + (if pending_cr {
                    seq!['\r']
                } else {
                    Seq::<char>::empty()
                }) + chars.remaining(),
            ),
        ensures
            done.len() < limit,
            is_one_line(current@),
            chars.remaining().len() == 0,
            lines_of(content@) == texts(done@) + lines_of(
                current@ + (if pending_cr {
                    seq!['\r']
                } else {
                    Seq::<char>::empty()
                }),
            ),
        decreases chars.decrease()->0,
    {
        let ghost held = if pending_cr {
            seq!['\r']
        } else {
            Seq::<char>::empty()
        };
        let ghost before = current@;
        let ghost rest = chars.remaining();
        let ghost finished = texts(done@);
        match chars.next() {
            None => {
                assert(before + held + rest =~= before + held);
                break ;
            },
            Some(c) => {
                let ghost tail = chars.remaining();
                assert(rest =~= seq![c] + tail);
                if c == '\n' {
                    proof {
                        assert(is_one_line(before + held));
                        lemma_lines_of_split(before + held, tail);
                        assert(before + held + rest =~= (before + held) + seq!['\n'] + tail);
                        assert(strip_cr(before + held) =~= before);
                    }
                    done.push(current);
                    current = String::new();
                    pending_cr = false;
                    assert(texts(done@) =~= finished.push(before));
                    assert(finished + (seq![before] + lines_of(tail)) =~= finished.push(before)
                        + lines_of(tail));
                    assert(current@ + Seq::<char>::empty() + tail =~= tail);
                    if done.len() == limit {
                        proof {
                            let all = lines_of(content@);
                            assert(all.take(limit as int) =~= texts(done@));
                            if all.len() <= limit {
                                assert(all =~= texts(done@));
                            }
                        }
                        return done;
                    }
                } else {
                    if pending_cr {
                        current.push('\r');
                    }
                    assert(current@ =~= before + held);
                    if c == '\r' {
                        pending_cr = true;
                        assert(current@ + seq!['\r'] + tail =~= before + held + rest);
                    } else {
                        pending_cr = false;
                        current.push(c);
                        assert(current@ + Seq::<char>::empty() + tail =~= before + held + rest);
                    }
                }
            },
        }
    }
    let ghost finished = texts(done@);
    let ghost last = current@ + (if pending_cr {
        seq!['\r']
    } else {
        Seq::<char>::empty()
    });
    if pending_cr {
        current.push('\r');
    }
    assert(current@ =~= last);
    proof {
        lemma_lines_of_one_line(last);
    }
    if !current.as_str().is_empty() {
        done.push(current);
        assert(texts(done@) =~= finished.push(last));
        assert(finished + seq![last] =~= finished.push(last));
    } else {
        assert(finished + Seq::<Seq<char>>::empty() =~= finished);
    }
    assert(texts(done@) == lines_of(content@));
    done
}

/// Joins the lines by single line feeds.
pub fn join_with_newlines(lines: &Vec<String>) -> (text: String)
    ensures
        text@ == join_lines(texts(lines@)),
{
    let ghost all = texts(lines@);
    let mut text = String::new();
    let mut k: usize = 0;
    while k < lines.len()
        invariant
            k <= lines.len(),
            all == texts(lines@),
            text@ == join_lines(all.take(k as int)),
        decreases lines.len() - k,
    {
        let ghost before = text@;
        if k > 0 {
            text.push('\n');
        }
        text.append(lines[k].as_str());
        proof {
            let upto = all.take(k + 1);
            assert(upto.drop_last() =~= all.take(k as int));
            assert(upto.last() == lines[k as int]@);
            if k > 0 {
                assert(text@ =~= before + seq!['\n'] + lines[k as int]@);
            } else {
                assert(text@ =~= lines[k as int]@);
            }
        }
        k = k + 1;
    }
    assert(all.take(lines.len() as int) =~= all);
    text
}

} // verus!
