//! Formulas in infix notation: runs of digits are variables, `->` is the
//! implication, which groups to the right, `-` before a formula is its
//! negation, and brackets group.

use vstd::prelude::*;
use crate::formula::digits::{digit_value, is_digit, number};
use crate::formula::polish::chars_of;
use crate::formula::tree::Formula;

verus! {

/// Why a text in infix notation is not a formula.
#[derive(Debug, Clone, Copy, PartialEq, Eq)]
pub enum FormulaParseError {
    /// The text ends where a formula or a closing bracket is expected.
    UnexpectedEOF,
    /// This character stands where it has no place; for a number too
    /// large to be a variable, its first digit.
    UnexpectedChar(char),
}

/// A formula that was read and the position after it, or the reason why
/// none was read.
pub type Parsed = Result<(Formula, int), FormulaParseError>;

/// Whether a character is white space.
pub open spec fn is_space(c: char) -> bool {
    let n = c as u32;
    (0x09 <= n && n <= 0x0D) || n == 0x20 || n == 0x85 || n == 0xA0 || n == 0x1680 || (0x2000 <= n
        && n <= 0x200A) || n == 0x2028 || n == 0x2029 || n == 0x202F || n == 0x205F || n
        == 0x3000
}

/// The first position from `i` on that holds no white space.
pub open spec fn after_space(s: Seq<char>, i: int) -> int
    decreases s.len() - i,
{
    if 0 <= i < s.len() && is_space(s[i]) {
        after_space(s, i + 1)
    } else {
        i
    }
}

/// The first position from `i` on that holds no digit.
pub open spec fn after_digits(s: Seq<char>, i: int) -> int
    decreases s.len() - i,
{
    if 0 <= i < s.len() && is_digit(s[i]) {
        after_digits(s, i + 1)
    } else {
        i
    }
}

/// Whether `->` stands at `i`.
pub open spec fn arrow_at(s: Seq<char>, i: int) -> bool {
    0 <= i && i + 1 < s.len() && s[i] == '-' && s[i + 1] == '>'
}

/// The variable whose number begins at `i`.
pub open spec fn var_at(s: Seq<char>, i: int) -> Parsed {
    let j = after_digits(s, i);
    let n = number(s.subrange(i, j));
    if n <= usize::MAX {
        Ok((Formula::Var(n as usize), j))
    } else {
        Err(FormulaParseError::UnexpectedChar(s[i]))
    }
}

/// The formula without an implication at its top that begins at `i`,
/// after white space: a variable, a negation, or a formula in brackets.
pub open spec fn one_at(s: Seq<char>, i: int) -> Parsed
    decreases s.len() - i, 0nat,
{
    let j = after_space(s, i);
    if j < i || j >= s.len() {
        Err(FormulaParseError::UnexpectedEOF)
    } else if s[j] == '(' {
        bracket_at(s, j + 1)
    } else if is_digit(s[j]) {
        var_at(s, j)
    } else if s[j] == '-' {
        match one_at(s, j + 1) {
            Ok((inner, k)) => Ok((Formula::Not(Box::new(inner)), k)),
            Err(e) => Err(e),
        }
    } else {
        Err(FormulaParseError::UnexpectedChar(s[j]))
    }
}

/// The formula that begins at `i` and ends at the closing bracket that
/// follows it.
pub open spec fn bracket_at(s: Seq<char>, i: int) -> Parsed
    decreases s.len() - i, 1nat,
{
    if i > s.len() {
        Err(FormulaParseError::UnexpectedEOF)
    } else {
        match one_at(s, i) {
            Err(e) => Err(e),
            Ok((left, after)) => {
                let j = after_space(s, after);
                if j < i || j >= s.len() {
                    Err(FormulaParseError::UnexpectedEOF)
                } else if s[j] == ')' {
                    Ok((left, j + 1))
                } else if arrow_at(s, j) {
                    match bracket_at(s, j + 2) {
                        Ok((right, k)) => Ok(
                            (Formula::Implication(Box::new(left), Box::new(right)), k),
                        ),
                        Err(e) => Err(e),
                    }
                } else {
                    Err(FormulaParseError::UnexpectedChar(s[j]))
                }
            },
        }
    }
}

/// The formula that begins at `i` and ends with the text.
pub open spec fn formula_at(s: Seq<char>, i: int) -> Result<Formula, FormulaParseError>
    decreases s.len() - i, 1nat,
{
    if i > s.len() {
        Err(FormulaParseError::UnexpectedEOF)
    } else {
        match one_at(s, i) {
            Err(e) => Err(e),
            Ok((left, after)) => {
                let j = after_space(s, after);
                if j < i {
                    Err(FormulaParseError::UnexpectedEOF)
                } else if j >= s.len() {
                    Ok(left)
                } else if arrow_at(s, j) {
                    match formula_at(s, j + 2) {
                        Ok(right) => Ok(Formula::Implication(Box::new(left), Box::new(right))),
                        Err(e) => Err(e),
                    }
                } else {
                    Err(FormulaParseError::UnexpectedChar(s[j]))
                }
            },
        }
    }
}

/// The formula that a text in infix notation stands for.
pub open spec fn parsed(s: Seq<char>) -> Result<Formula, FormulaParseError> {
    formula_at(s, 0)
}

/// Whether `w` stands in `s` from `i` on.
pub open spec fn stands_at(s: Seq<char>, i: int, w: Seq<char>) -> bool {
    0 <= i && i + w.len() <= s.len() && forall|k: int| 0 <= k < w.len() ==> s[i + k] == #[trigger] w[k]
}

/// Whether `s` holds nothing but white space from `from` up to `to`.
pub open spec fn blank(s: Seq<char>, from: int, to: int) -> bool {
    0 <= from <= to <= s.len() && forall|k: int| from <= k < to ==> is_space(#[trigger] s[k])
}

/// Whether a number can end before `j`: no digit stands there.
pub open spec fn no_digit_at(s: Seq<char>, j: int) -> bool {
    j >= s.len() || !is_digit(s[j])
}

/// The written form of a formula as an operand that takes no
/// implication without brackets.
pub open spec fn guarded(f: Formula) -> Seq<char> {
    if f is Implication {
        seq!['('] + f.written() + seq![')']
    } else {
        f.written()
    }
}

/// White space ends where something else stands.
proof fn lemma_after_space(s: Seq<char>, from: int, to: int)
    requires
        blank(s, from, to),
        to == s.len() || !is_space(s[to]),
    ensures
        after_space(s, from) == to,
    decreases to - from,
{
    if from < to {
        assert(is_space(s[from]));
        lemma_after_space(s, from + 1, to);
    }
}

/// A run of digits ends where something else stands.
proof fn lemma_after_digits(s: Seq<char>, from: int, to: int)
    requires
        0 <= from <= to <= s.len(),
        forall|k: int| from <= k < to ==> is_digit(#[trigger] s[k]),
        no_digit_at(s, to),
    ensures
        after_digits(s, from) == to,
    decreases to - from,
{
    if from < to {
        assert(is_digit(s[from]));
        lemma_after_digits(s, from + 1, to);
    }
}

/// The written form of a formula begins with a digit, with `-` or with
/// `(`, and a guarded one too.
proof fn lemma_head(f: Formula)
    ensures
        f.written().len() >= 1,
        guarded(f).len() >= 1,
        f is Var ==> is_digit(f.written()[0]),
        f is Not ==> f.written()[0] == '-',
        f is Implication ==> guarded(f)[0] == '(',
        is_digit(f.written()[0]) || f.written()[0] == '-' || f.written()[0] == '(',
        guarded(f)[0] == (if f is Implication {
            '('
        } else {
            f.written()[0]
        }),
    decreases f,
{
    match f {
        Formula::Var(x) => {
            crate::formula::digits::lemma_decimal(x as nat);
        },
        Formula::Implication(a, b) => {
            lemma_head(*a);
            lemma_head(*b);
            if *a is Implication {
                assert(f.written()[0] == '(');
            } else {
                assert(f.written()[0] == a.written()[0]);
            }
        },
        Formula::Not(a) => {
            lemma_head(*a);
        },
    }
}

/// A guarded formula is read as the formula: where it stands after
/// white space and no digit follows it, it is read there.
proof fn lemma_read_guarded(s: Seq<char>, start: int, i: int, f: Formula)
    requires
        blank(s, start, i),
        stands_at(s, i, guarded(f)),
        no_digit_at(s, i + guarded(f).len()),
    ensures
        one_at(s, start) == Ok::<(Formula, int), FormulaParseError>((f, i + guarded(f).len())),
    decreases f, 2nat,
{
    lemma_head(f);
    if f is Implication {
        let w = f.written();
        assert(s[i] == guarded(f)[0]);
        lemma_after_space(s, start, i);
        assert forall|k: int| 0 <= k < w.len() + 1 implies s[i + 1 + k] == #[trigger] (w + seq![
            ')',
        ])[k] by {
            assert(s[i + (1 + k)] == guarded(f)[1 + k]);
        }
        lemma_read_bracket(s, i + 1, i + 1, f);
    } else {
        lemma_read_one(s, start, i, f);
    }
}

/// A formula that is no implication is read where it stands after white
/// space, if no digit follows it.
proof fn lemma_read_one(s: Seq<char>, start: int, i: int, f: Formula)
    requires
        blank(s, start, i),
        stands_at(s, i, f.written()),
        !(f is Implication),
        no_digit_at(s, i + f.written().len()),
    ensures
        one_at(s, start) == Ok::<(Formula, int), FormulaParseError>((f, i + f.written().len())),
    decreases f, 0nat,
{
    let w = f.written();
    lemma_head(f);
    assert(s[i] == w[0]);
    lemma_after_space(s, start, i);
    match f {
        Formula::Var(x) => {
            crate::formula::digits::lemma_decimal(x as nat);
            assert forall|k: int| i <= k < i + w.len() implies is_digit(#[trigger] s[k]) by {
                assert(s[i + (k - i)] == w[k - i]);
            }
            lemma_after_digits(s, i, i + w.len());
            assert(s.subrange(i, i + w.len()) =~= w) by {
                assert forall|k: int| 0 <= k < w.len() implies s[i + k] == w[k] by {}
            }
        },
        Formula::Not(a) => {
            let g = guarded(*a);
            assert(w =~= seq!['-'] + g);
            assert forall|k: int| 0 <= k < g.len() implies s[i + 1 + k] == #[trigger] g[k] by {
                assert(s[i + (1 + k)] == w[1 + k]);
            }
            lemma_read_guarded(s, i + 1, i + 1, *a);
        },
        Formula::Implication(_, _) => {},
    }
}

/// A formula is read up to the closing bracket that follows it.
proof fn lemma_read_bracket(s: Seq<char>, start: int, i: int, f: Formula)
    requires
        blank(s, start, i),
        stands_at(s, i, f.written() + seq![')']),
    ensures
        bracket_at(s, start) == Ok::<(Formula, int), FormulaParseError>(
            (f, i + f.written().len() + 1),
        ),
    decreases f, 1nat,
{
    let w = f.written();
    let whole = w + seq![')'];
    lemma_head(f);
    assert forall|k: int| 0 <= k < w.len() implies s[i + k] == #[trigger] w[k] by {
        assert(s[i + k] == whole[k]);
    }
    match f {
        Formula::Implication(a, b) => {
            let g = guarded(*a);
            let wb = b.written();
            let arrow = seq![' ', '-', '>', ' '];
            assert(w =~= g + arrow + wb);
            assert forall|k: int| 0 <= k < g.len() implies s[i + k] == #[trigger] g[k] by {
                assert(s[i + k] == whole[k]);
            }
            let n = g.len() as int;
            let j = i + n;
            assert(s[i + n] == whole[n] && s[i + (n + 1)] == whole[n + 1] && s[i + (n + 2)]
                == whole[n + 2] && s[i + (n + 3)] == whole[n + 3]);
            lemma_read_guarded(s, start, i, *a);
            lemma_after_space(s, j, j + 1);
            lemma_head(*b);
            assert forall|k: int| 0 <= k < wb.len() + 1 implies s[j + 4 + k] == #[trigger] (wb
                + seq![')'])[k] by {
                assert(s[i + (g.len() + 4 + k)] == whole[g.len() + 4 + k]);
            }
            lemma_read_bracket(s, j + 3, j + 4, *b);
        },
        _ => {
            assert(s[i + w.len()] == whole[w.len() as int]);
            lemma_read_one(s, start, i, f);
            lemma_after_space(s, i + w.len(), i + w.len());
        },
    }
}

/// A formula is read where it stands after white space and ends the
/// text.
proof fn lemma_read_all(s: Seq<char>, start: int, i: int, f: Formula)
    requires
        blank(s, start, i),
        stands_at(s, i, f.written()),
        i + f.written().len() == s.len(),
    ensures
        formula_at(s, start) == Ok::<Formula, FormulaParseError>(f),
    decreases f, 1nat,
{
    let w = f.written();
    lemma_head(f);
    match f {
        Formula::Implication(a, b) => {
            let g = guarded(*a);
            let wb = b.written();
            let arrow = seq![' ', '-', '>', ' '];
            assert(w =~= g + arrow + wb);
            assert forall|k: int| 0 <= k < g.len() implies s[i + k] == #[trigger] g[k] by {
                assert(s[i + k] == w[k]);
            }
            let n = g.len() as int;
            let j = i + n;
            assert(s[i + n] == w[n] && s[i + (n + 1)] == w[n + 1] && s[i + (n + 2)] == w[n + 2]
                && s[i + (n + 3)] == w[n + 3]);
            lemma_read_guarded(s, start, i, *a);
            lemma_after_space(s, j, j + 1);
            lemma_head(*b);
            assert forall|k: int| 0 <= k < wb.len() implies s[j + 4 + k] == #[trigger] wb[k] by {
                assert(s[i + (g.len() + 4 + k)] == w[g.len() + 4 + k]);
            }
            lemma_read_all(s, j + 3, j + 4, *b);
        },
        _ => {
            lemma_read_one(s, start, i, f);
            lemma_after_space(s, s.len() as int, s.len() as int);
        },
    }
}

/// Reading what was written: the written form of a formula is read as
/// that formula.
pub proof fn law_parse_written(f: Formula)
    ensures
        parsed(f.written()) == Ok::<Formula, FormulaParseError>(f),
{
    lemma_read_all(f.written(), 0, 0, f);
}

/// Whether a character is white space.
pub fn space(c: char) -> (yes: bool)
    ensures
        yes == is_space(c),
{
    let n = c as u32;
    (0x09 <= n && n <= 0x0D) || n == 0x20 || n == 0x85 || n == 0xA0 || n == 0x1680 || (0x2000 <= n
        && n <= 0x200A) || n == 0x2028 || n == 0x2029 || n == 0x202F || n == 0x205F || n
        == 0x3000
}

/// The first position from `i` on that holds no white space.
pub fn eat_space(chars: &Vec<char>, i: usize) -> (j: usize)
    requires
        i <= chars@.len(),
    ensures
        j == after_space(chars@, i as int),
        i <= j <= chars@.len(),
{
    let mut j = i;
    while j < chars.len() && space(chars[j])
        invariant
            i <= j <= chars@.len(),
            after_space(chars@, i as int) == after_space(chars@, j as int),
        decreases chars@.len() - j,
    {
        j += 1;
    }
    j
}

/// Reads the variable whose number begins at `i`.
pub fn parse_var(chars: &Vec<char>, i: usize) -> (read: Result<(Formula, usize), FormulaParseError>)
    requires
        i < chars@.len(),
        is_digit(chars@[i as int]),
    ensures
        agrees(read, var_at(chars@, i as int)),
        read matches Ok((f, k)) ==> i < k <= chars@.len() && f.size() <= k - i,
{
    let ghost s = chars@;
    let mut j = i;
    let mut value: usize = 0;
    let mut fits = true;
    proof {
        assert(s.subrange(i as int, i as int) =~= Seq::<char>::empty());
    }
    while j < chars.len() && '0' <= chars[j] && chars[j] <= '9'
        invariant
            s == chars@,
            i <= j <= s.len(),
            after_digits(s, i as int) == after_digits(s, j as int),
            fits ==> value == number(s.subrange(i as int, j as int)),
            !fits ==> number(s.subrange(i as int, j as int)) > usize::MAX,
        decreases s.len() - j,
    {
        let d = (chars[j] as u32 - '0' as u32) as usize;
        proof {
            let now = s.subrange(i as int, j as int + 1);
            assert(now.drop_last() =~= s.subrange(i as int, j as int));
            assert(now.last() == s[j as int]);
            assert(d == digit_value(s[j as int]));
        }
        if fits {
            if value > (usize::MAX - d) / 10 {
                fits = false;
            } else {
                value = value * 10 + d;
            }
        }
        j += 1;
    }
    if fits {
        Ok((Formula::Var(value), j))
    } else {
        Err(FormulaParseError::UnexpectedChar(chars[i]))
    }
}

/// Whether what was read is what the text stands for.
pub open spec fn agrees(read: Result<(Formula, usize), FormulaParseError>, meant: Parsed) -> bool {
    match read {
        Ok((f, k)) => meant == Ok::<(Formula, int), FormulaParseError>((f, k as int)),
        Err(e) => meant == Err::<(Formula, int), FormulaParseError>(e),
    }
}

/// Reads the formula without an implication at its top that begins at
/// `i`, after white space.
pub fn parse_one(chars: &Vec<char>, i: usize) -> (read: Result<(Formula, usize), FormulaParseError>)
    requires
        i <= chars@.len(),
    ensures
        agrees(read, one_at(chars@, i as int)),
        read matches Ok((f, k)) ==> i < k <= chars@.len() && f.size() <= k - i,
    decreases chars@.len() - i, 0nat,
{
    let j = eat_space(chars, i);
    if j >= chars.len() {
        return Err(FormulaParseError::UnexpectedEOF);
    }
    let c = chars[j];
    if c == '(' {
        parse_to_bracket(chars, j + 1)
    } else if '0' <= c && c <= '9' {
        parse_var(chars, j)
    } else if c == '-' {
        match parse_one(chars, j + 1) {
            Ok((inner, k)) => Ok((crate::formula::tree::not(inner), k)),
            Err(e) => Err(e),
        }
    } else {
        Err(FormulaParseError::UnexpectedChar(c))
    }
}

/// Reads the formula that begins at `i` and ends at the closing bracket
/// that follows it.
pub fn parse_to_bracket(chars: &Vec<char>, i: usize) -> (read: Result<
    (Formula, usize),
    FormulaParseError,
>)
    requires
        i <= chars@.len(),
    ensures
        agrees(read, bracket_at(chars@, i as int)),
        read matches Ok((f, k)) ==> i < k <= chars@.len() && f.size() <= k - i,
    decreases chars@.len() - i, 1nat,
{
    let (left, after) = match parse_one(chars, i) {
        Ok(found) => found,
        Err(e) => {
            return Err(e);
        },
    };
    let j = eat_space(chars, after);
    if j >= chars.len() {
        Err(FormulaParseError::UnexpectedEOF)
    } else if chars[j] == ')' {
        Ok((left, j + 1))
    } else if chars[j] == '-' && j + 1 < chars.len() && chars[j + 1] == '>' {
        match parse_to_bracket(chars, j + 2) {
            Ok((right, k)) => Ok((crate::formula::tree::implication(left, right), k)),
            Err(e) => Err(e),
        }
    } else {
        Err(FormulaParseError::UnexpectedChar(chars[j]))
    }
}

/// Reads the formula that begins at `i` and ends with the text.
pub fn parse_from(chars: &Vec<char>, i: usize) -> (read: Result<Formula, FormulaParseError>)
    requires
        i <= chars@.len(),
    ensures
        read == formula_at(chars@, i as int),
        read matches Ok(f) ==> f.size() <= chars@.len() - i,
    decreases chars@.len() - i, 1nat,
{
    let (left, after) = match parse_one(chars, i) {
        Ok(found) => found,
        Err(e) => {
            return Err(e);
        },
    };
    let j = eat_space(chars, after);
    if j >= chars.len() {
        Ok(left)
    } else if chars[j] == '-' && j + 1 < chars.len() && chars[j + 1] == '>' {
        match parse_from(chars, j + 2) {
            Ok(right) => Ok(crate::formula::tree::implication(left, right)),
            Err(e) => Err(e),
        }
    } else {
        Err(FormulaParseError::UnexpectedChar(chars[j]))
    }
}

/// Reads a formula in infix notation.
pub fn parse(s: &str) -> (read: Result<Formula, FormulaParseError>)
    ensures
        read == parsed(s@),
        read matches Ok(f) ==> f.size() <= s@.len() <= usize::MAX,
{
    let chars = chars_of(s);
    parse_from(&chars, 0)
}

} // verus!
