//! How numbers are appended to a JSON text.
//!
//! A number is written as the standard library formats it, in several steps: a
//! minus sign, and the digits in runs. Where a step would take the text past the
//! limit, the steps before it stand.
use vstd::prelude::*;
use vstd::string::*;

use super::json::{
    clean, emit, failure, joined, lemma_emit_add, lemma_joined_add, lemma_joined_text,
    Output, Piece,
};
use crate::message::{Real, RealView};
use crate::text::{characters, decimal, integer_text, render_integer};

verus! {

/// The greatest number of zeros that are written in one step.
pub const RUN: usize = 64;

/// The pieces of an integer: a minus sign where it is negative, and its digits.
pub open spec fn integer_pieces(value: int) -> Seq<Piece> {
    if value < 0 {
        seq![Piece::Text("-"@), Piece::Text(decimal((-value) as nat))]
    } else {
        seq![Piece::Text(decimal(value as nat))]
    }
}

/// The pieces of a run of zeros.
pub open spec fn run_pieces(zeros: Seq<char>) -> Seq<Piece>
    decreases zeros.len(),
{
    if zeros.len() == 0 {
        Seq::empty()
    } else if zeros.len() <= RUN {
        seq![Piece::Text(zeros)]
    } else {
        seq![Piece::Text(zeros.take(RUN as int))] + run_pieces(zeros.skip(RUN as int))
    }
}

/// The position of the first character from `from` on that is not `c`.
pub open spec fn past(text: Seq<char>, c: char, from: int) -> int
    decreases text.len() - from,
{
    if 0 <= from < text.len() && text[from] == c {
        past(text, c, from + 1)
    } else {
        from
    }
}

/// The position of the first decimal point from `from` on, or the end.
pub open spec fn point(text: Seq<char>, from: int) -> int
    decreases text.len() - from,
{
    if 0 <= from < text.len() && text[from] != '.' {
        point(text, from + 1)
    } else {
        from
    }
}

/// How many characters are left without the zeros at the end.
pub open spec fn significant(text: Seq<char>, to: int) -> int
    decreases to,
{
    if 0 < to <= text.len() && text[to - 1] == '0' {
        significant(text, to - 1)
    } else {
        to
    }
}

/// The pieces of a decimal text from `from` on, where its digits begin.
///
/// Below one these are a zero with the point, a run of zeros and the digits;
/// otherwise the digits before the point, the point and the digits behind it.
/// Without a point they are the digits and the run of zeros at the end.
pub open spec fn digit_pieces(text: Seq<char>, from: int) -> Seq<Piece> {
    let dot = point(text, from);
    let len = text.len() as int;
    if dot >= len {
        let kept = significant(text, len);
        if kept <= from {
            seq![Piece::Text(text.subrange(from, len))]
        } else {
            seq![Piece::Text(text.subrange(from, kept))] + run_pieces(text.subrange(kept, len))
        }
    } else if dot == from + 1 && text[from] == '0' {
        let digits = past(text, '0', dot + 1);
        seq![Piece::Text(text.subrange(from, dot + 1))] + run_pieces(
            text.subrange(dot + 1, digits),
        ) + seq![Piece::Text(text.subrange(digits, len))]
    } else {
        seq![
            Piece::Text(text.subrange(from, dot)),
            Piece::Text(text.subrange(dot, dot + 1)),
            Piece::Text(text.subrange(dot + 1, len)),
        ]
    }
}

/// The pieces of a finite number: a minus sign where it is negative, and those of
/// its digits.
pub open spec fn finite_pieces(text: Seq<char>) -> Seq<Piece> {
    if text.len() > 0 && text[0] == '-' {
        seq![Piece::Text("-"@)] + digit_pieces(text, 1)
    } else {
        digit_pieces(text, 0)
    }
}

/// The pieces of a number.
pub open spec fn real_pieces(number: RealView) -> Seq<Piece> {
    match number {
        RealView::Finite(text) => finite_pieces(text),
        _ => seq![Piece::Text("null"@)],
    }
}

/// The pieces of an integer make up its text.
pub proof fn lemma_integer_pieces(value: int)
    ensures
        clean(integer_pieces(value)),
        joined(integer_pieces(value)) == integer_text(value),
{
    if value < 0 {
        let digits = decimal((-value) as nat);
        reveal_strlit("-");
        lemma_joined_text("-"@);
        lemma_joined_text(digits);
        lemma_joined_add(seq![Piece::Text("-"@)], seq![Piece::Text(digits)]);
        assert(integer_pieces(value) =~= seq![Piece::Text("-"@)] + seq![Piece::Text(digits)]);
        assert("-"@ =~= seq!['-']);
    } else {
        lemma_joined_text(decimal(value as nat));
    }
}

proof fn lemma_run_pieces(zeros: Seq<char>)
    ensures
        clean(run_pieces(zeros)),
        joined(run_pieces(zeros)) == zeros,
    decreases zeros.len(),
{
    if zeros.len() == 0 {
        assert(joined(run_pieces(zeros)) =~= zeros);
    } else if zeros.len() <= RUN {
        lemma_joined_text(zeros);
    } else {
        let first = zeros.take(RUN as int);
        let rest = zeros.skip(RUN as int);
        lemma_run_pieces(rest);
        lemma_joined_text(first);
        lemma_joined_add(seq![Piece::Text(first)], run_pieces(rest));
        assert(first + rest =~= zeros);
    }
}

proof fn lemma_past(text: Seq<char>, c: char, from: int)
    requires
        0 <= from <= text.len(),
    ensures
        from <= past(text, c, from) <= text.len(),
    decreases text.len() - from,
{
    if from < text.len() && text[from] == c {
        lemma_past(text, c, from + 1);
    }
}

proof fn lemma_point(text: Seq<char>, from: int)
    requires
        0 <= from <= text.len(),
    ensures
        from <= point(text, from) <= text.len(),
    decreases text.len() - from,
{
    if from < text.len() && text[from] != '.' {
        lemma_point(text, from + 1);
    }
}

proof fn lemma_significant(text: Seq<char>, to: int)
    requires
        0 <= to <= text.len(),
    ensures
        0 <= significant(text, to) <= to,
    decreases to,
{
    if 0 < to && text[to - 1] == '0' {
        lemma_significant(text, to - 1);
    }
}

proof fn lemma_digit_pieces(text: Seq<char>, from: int)
    requires
        0 <= from <= text.len(),
    ensures
        clean(digit_pieces(text, from)),
        joined(digit_pieces(text, from)) == text.subrange(from, text.len() as int),
{
    let dot = point(text, from);
    let len = text.len() as int;
    let whole = text.subrange(from, len);
    lemma_point(text, from);
    if dot >= len {
        let kept = significant(text, len);
        lemma_significant(text, len);
        if kept <= from {
            lemma_joined_text(whole);
        } else {
            let head = text.subrange(from, kept);
            let run = text.subrange(kept, len);
            lemma_joined_text(head);
            lemma_run_pieces(run);
            lemma_joined_add(seq![Piece::Text(head)], run_pieces(run));
            assert(head + run =~= whole);
        }
    } else if dot == from + 1 && text[from] == '0' {
        let digits = past(text, '0', dot + 1);
        lemma_past(text, '0', dot + 1);
        let head = text.subrange(from, dot + 1);
        let run = text.subrange(dot + 1, digits);
        let tail = text.subrange(digits, len);
        lemma_joined_text(head);
        lemma_run_pieces(run);
        lemma_joined_text(tail);
        lemma_joined_add(seq![Piece::Text(head)], run_pieces(run));
        lemma_joined_add(seq![Piece::Text(head)] + run_pieces(run), seq![Piece::Text(tail)]);
        assert(head + run + tail =~= whole);
    } else {
        let head = text.subrange(from, dot);
        let mark = text.subrange(dot, dot + 1);
        let tail = text.subrange(dot + 1, len);
        lemma_joined_text(head);
        lemma_joined_text(mark);
        lemma_joined_text(tail);
        lemma_joined_add(seq![Piece::Text(head)], seq![Piece::Text(mark)]);
        lemma_joined_add(
            seq![Piece::Text(head)] + seq![Piece::Text(mark)],
            seq![Piece::Text(tail)],
        );
        assert(digit_pieces(text, from) =~= seq![Piece::Text(head)] + seq![Piece::Text(mark)]
            + seq![Piece::Text(tail)]);
        assert(head + mark + tail =~= whole);
    }
}

/// The pieces of a finite number make up its text.
pub proof fn lemma_finite_pieces(text: Seq<char>)
    ensures
        clean(finite_pieces(text)),
        joined(finite_pieces(text)) == text,
{
    if text.len() > 0 && text[0] == '-' {
        reveal_strlit("-");
        lemma_digit_pieces(text, 1);
        lemma_joined_text("-"@);
        lemma_joined_add(seq![Piece::Text("-"@)], digit_pieces(text, 1));
        assert("-"@ + text.subrange(1, text.len() as int) =~= text);
    } else {
        lemma_digit_pieces(text, 0);
        assert(text.subrange(0, text.len() as int) =~= text);
    }
}

impl Output {
    /// Appends an integer in decimal.
    pub fn number(&mut self, value: i128) -> (result: Result<(), &'static str>)
        requires
            old(self).well_formed(),
        ensures
            final(self).well_formed(),
            (final(self)@, failure(result)) == emit(old(self)@, integer_pieces(value as int)),
    {
        let text = render_integer(value);
        if value < 0 {
            let digits = text.as_str().substring_char(1, text.as_str().unicode_len());
            proof {
                let sign = seq![Piece::Text("-"@)];
                assert(digits@ =~= decimal((-value) as nat));
                assert(integer_pieces(value as int) =~= sign + seq![Piece::Text(digits@)]);
                lemma_emit_add(self@, sign, seq![Piece::Text(digits@)]);
            }
            match self.push("-") {
                Ok(_) => self.push(digits),
                Err(error) => Err(error),
            }
        } else {
            self.push(text.as_str())
        }
    }

    /// Appends a floating-point number, or `null` where it is not finite.
    pub fn float(&mut self, value: &Real) -> (result: Result<(), &'static str>)
        requires
            old(self).well_formed(),
        ensures
            final(self).well_formed(),
            (final(self)@, failure(result)) == emit(old(self)@, real_pieces(value@)),
    {
        match value {
            Real::Finite(text) => self.finite(text.as_str()),
            _ => self.push("null"),
        }
    }

    fn finite(&mut self, text: &str) -> (result: Result<(), &'static str>)
        requires
            old(self).well_formed(),
        ensures
            final(self).well_formed(),
            (final(self)@, failure(result)) == emit(old(self)@, finite_pieces(text@)),
    {
        let letters = characters(text);
        if letters.len() > 0 && letters[0] == '-' {
            proof {
                lemma_emit_add(self@, seq![Piece::Text("-"@)], digit_pieces(text@, 1));
            }
            match self.push("-") {
                Ok(_) => self.digits(text, &letters, 1),
                Err(error) => Err(error),
            }
        } else {
            self.digits(text, &letters, 0)
        }
    }

    fn digits(&mut self, text: &str, letters: &Vec<char>, from: usize) -> (result: Result<
        (),
        &'static str,
    >)
        requires
            old(self).well_formed(),
            letters@ == text@,
            from <= text@.len(),
        ensures
            final(self).well_formed(),
            (final(self)@, failure(result)) == emit(old(self)@, digit_pieces(text@, from as int)),
    {
        let len: usize = letters.len();
        let mut dot: usize = from;
        while dot < len && letters[dot] != '.'
            invariant
                from <= dot <= len,
                len == letters@.len(),
                letters@ == text@,
                point(text@, from as int) == point(text@, dot as int),
            decreases len - dot,
        {
            dot += 1;
        }
        let ghost start = self@;
        if dot >= len {
            let mut kept: usize = len;
            while kept > 0 && letters[kept - 1] == '0'
                invariant
                    kept <= len,
                    len == letters@.len(),
                    letters@ == text@,
                    significant(text@, len as int) == significant(text@, kept as int),
                decreases kept,
            {
                kept -= 1;
            }
            if kept <= from {
                return self.push(text.substring_char(from, len));
            }
            let head = text.substring_char(from, kept);
            proof {
                lemma_emit_add(
                    start,
                    seq![Piece::Text(head@)],
                    run_pieces(text@.subrange(kept as int, len as int)),
                );
            }
            match self.push(head) {
                Ok(_) => self.run(text, kept, len),
                Err(error) => Err(error),
            }
        } else if dot == from + 1 && letters[from] == '0' {
            let mut past_zeros: usize = dot + 1;
            while past_zeros < len && letters[past_zeros] == '0'
                invariant
                    dot + 1 <= past_zeros <= len,
                    len == letters@.len(),
                    letters@ == text@,
                    past(text@, '0', dot + 1) == past(text@, '0', past_zeros as int),
                decreases len - past_zeros,
            {
                past_zeros += 1;
            }
            let head = text.substring_char(from, dot + 1);
            let tail = text.substring_char(past_zeros, len);
            let ghost run = run_pieces(text@.subrange(dot + 1, past_zeros as int));
            proof {
                lemma_emit_add(start, seq![Piece::Text(head@)], run);
                lemma_emit_add(start, seq![Piece::Text(head@)] + run, seq![Piece::Text(tail@)]);
            }
            match self.push(head) {
                Ok(_) => {},
                Err(error) => {
                    return Err(error);
                },
            }
            match self.run(text, dot + 1, past_zeros) {
                Ok(_) => self.push(tail),
                Err(error) => Err(error),
            }
        } else {
            let head = text.substring_char(from, dot);
            let mark = text.substring_char(dot, dot + 1);
            let tail = text.substring_char(dot + 1, len);
            proof {
                let first = seq![Piece::Text(head@)];
                let second = seq![Piece::Text(mark@)];
                let third = seq![Piece::Text(tail@)];
                assert(digit_pieces(text@, from as int) =~= first + second + third);
                lemma_emit_add(start, first, second);
                lemma_emit_add(start, first + second, third);
            }
            match self.push(head) {
                Ok(_) => {},
                Err(error) => {
                    return Err(error);
                },
            }
            match self.push(mark) {
                Ok(_) => self.push(tail),
                Err(error) => Err(error),
            }
        }
    }

    fn run(&mut self, text: &str, from: usize, to: usize) -> (result: Result<(), &'static str>)
        requires
            old(self).well_formed(),
            from <= to <= text@.len(),
        ensures
            final(self).well_formed(),
            (final(self)@, failure(result)) == emit(
                old(self)@,
                run_pieces(text@.subrange(from as int, to as int)),
            ),
        decreases to - from,
    {
        let ghost zeros = text@.subrange(from as int, to as int);
        if from == to {
            return Ok(());
        }
        if to - from <= RUN {
            return self.push(text.substring_char(from, to));
        }
        let first = text.substring_char(from, from + RUN);
        proof {
            assert(first@ =~= zeros.take(RUN as int));
            assert(text@.subrange(from + RUN, to as int) =~= zeros.skip(RUN as int));
            lemma_emit_add(self@, seq![Piece::Text(first@)], run_pieces(zeros.skip(RUN as int)));
        }
        match self.push(first) {
            Ok(_) => self.run(text, from + RUN, to),
            Err(error) => Err(error),
        }
    }
}

} // verus!
