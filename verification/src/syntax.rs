//! The source grammar.
//!
//! A source is a sequence of lines. A line holds statements: labels, each an
//! identifier with a colon behind it, and instructions, each a mnemonic with
//! its operands, separated by commas. A semicolon ends an instruction, so that
//! another statement may follow on the line; `#` starts a comment that runs to
//! the end of the line. A line that does not follow the grammar holds no
//! statement.
//!
//! An operand is a chain of terms joined by `+` and `-`, read from the left. A
//! term is a decimal or hexadecimal number, a character or string literal, or
//! an identifier.

use vstd::prelude::*;
use vstd::slice::slice_subrange;
use vstd::string::StringSliceAdditionalSpecFns;
use crate::ast::{Arguments, Compound, Expr, ExprView, Instruction, InstructionView, Label, LabelView, Macro, MacroKind, MacroView, Operator, Pair, Statement, StatementView};
use crate::ast::expr::is_digit;

verus! {

/// A class of bytes.
#[derive(Debug, Clone, Copy, PartialEq, Eq, Structural)]
pub enum Class {
    /// A blank, a tab or a carriage return.
    Space,
    /// A letter, a digit, an underscore or a dot.
    Name,
    /// A decimal digit.
    Digit,
    /// A hexadecimal digit.
    Hex,
    /// Anything but a line feed.
    Line,
}

/// Whether a byte is an ASCII letter.
pub open spec fn is_letter(b: u8) -> bool {
    ('a' as u8 <= b <= 'z' as u8) || ('A' as u8 <= b <= 'Z' as u8)
}

/// Whether a byte may start an identifier: a letter, an underscore or a dot.
pub open spec fn is_name_start(b: u8) -> bool {
    is_letter(b) || b == '_' as u8 || b == '.' as u8
}

/// Whether a byte is a hexadecimal digit.
pub open spec fn is_hex(b: u8) -> bool {
    is_digit(b) || ('a' as u8 <= b <= 'f' as u8) || ('A' as u8 <= b <= 'F' as u8)
}

/// The value of a digit; 0 for a byte that is none.
pub open spec fn digit_value(b: u8) -> nat {
    if is_digit(b) {
        (b - '0' as u8) as nat
    } else if 'a' as u8 <= b <= 'f' as u8 {
        (b - 'a' as u8 + 10) as nat
    } else if 'A' as u8 <= b <= 'F' as u8 {
        (b - 'A' as u8 + 10) as nat
    } else {
        0
    }
}

impl Class {
    /// Whether the byte belongs to the class.
    pub open spec fn holds(self, b: u8) -> bool {
        match self {
            Class::Space => b == ' ' as u8 || b == '\t' as u8 || b == '\r' as u8,
            Class::Name => is_name_start(b) || is_digit(b),
            Class::Digit => is_digit(b),
            Class::Hex => is_hex(b),
            Class::Line => b != '\n' as u8,
        }
    }

    /// Whether the byte belongs to the class.
    pub fn test(self, b: u8) -> (r: bool)
        ensures
            r == self.holds(b),
    {
        let letter = ('a' as u8 <= b && b <= 'z' as u8) || ('A' as u8 <= b && b <= 'Z' as u8);
        let digit = '0' as u8 <= b && b <= '9' as u8;
        match self {
            Class::Space => b == ' ' as u8 || b == '\t' as u8 || b == '\r' as u8,
            Class::Name => letter || digit || b == '_' as u8 || b == '.' as u8,
            Class::Digit => digit,
            Class::Hex => digit || ('a' as u8 <= b && b <= 'f' as u8) || ('A' as u8 <= b && b
                <= 'F' as u8),
            Class::Line => b != '\n' as u8,
        }
    }
}

/// The number of bytes of a class that follow one another from `from` on.
pub open spec fn run(s: Seq<u8>, from: int, class: Class) -> nat
    decreases s.len() - from,
{
    if 0 <= from < s.len() && class.holds(s[from]) {
        1 + run(s, from + 1, class)
    } else {
        0
    }
}

/// The number that a sequence of digits writes in a base.
pub open spec fn number_value(digits: Seq<u8>, base: nat) -> nat
    decreases digits.len(),
{
    if digits.len() == 0 {
        0
    } else {
        number_value(digits.drop_last(), base) * base + digit_value(digits.last())
    }
}

/// The number written by the digits in `[from, to)`, if there is a digit and
/// the number fits a machine word.
pub open spec fn number(s: Seq<u8>, from: int, to: int, base: nat) -> Option<usize> {
    if from < to && number_value(s.subrange(from, to), base) <= usize::MAX {
        Some(number_value(s.subrange(from, to), base) as usize)
    } else {
        None
    }
}

/// The place between two offsets.
pub open spec fn span(start: int, end: int) -> Pair {
    Pair { start: start as usize, end: end as usize }
}

/// A number literal at `from`: decimal digits, or `0x` and hexadecimal
/// digits.
pub open spec fn integer_literal(s: Seq<u8>, from: int) -> Option<(ExprView, int)> {
    if from + 1 < s.len() && s[from] == '0' as u8 && (s[from + 1] == 'x' as u8 || s[from + 1]
        == 'X' as u8) {
        let end = from + 2 + run(s, from + 2, Class::Hex);
        match number(s, from + 2, end, 16) {
            Some(value) => Some((ExprView::Integer { pair: span(from, end), value }, end)),
            None => None,
        }
    } else {
        let end = from + run(s, from, Class::Digit);
        match number(s, from, end, 10) {
            Some(value) => Some((ExprView::Integer { pair: span(from, end), value }, end)),
            None => None,
        }
    }
}

/// Whether a byte continues a character of more than one byte.
pub open spec fn is_continuation(b: u8) -> bool {
    0x80 <= b < 0xC0
}

/// The code of the character written at `at` in UTF-8, and the number of
/// its bytes.
pub open spec fn scalar(s: Seq<u8>, at: int) -> Option<(usize, int)> {
    if at < 0 || at >= s.len() {
        None
    } else if s[at] < 0x80 {
        Some((s[at] as usize, 1))
    } else if 0xC0 <= s[at] < 0xE0 && at + 1 < s.len() && is_continuation(s[at + 1]) {
        Some((((s[at] - 0xC0) * 0x40 + (s[at + 1] - 0x80)) as usize, 2))
    } else if 0xE0 <= s[at] < 0xF0 && at + 2 < s.len() && is_continuation(s[at + 1])
        && is_continuation(s[at + 2]) {
        Some(
            (
                ((s[at] - 0xE0) * 0x1000 + (s[at + 1] - 0x80) * 0x40 + (s[at + 2] - 0x80)) as usize,
                3,
            ),
        )
    } else if 0xF0 <= s[at] < 0xF8 && at + 3 < s.len() && is_continuation(s[at + 1])
        && is_continuation(s[at + 2]) && is_continuation(s[at + 3]) {
        Some(
            (
                ((s[at] - 0xF0) * 0x4_0000 + (s[at + 1] - 0x80) * 0x1000 + (s[at + 2] - 0x80) * 0x40
                    + (s[at + 3] - 0x80)) as usize,
                4,
            ),
        )
    } else {
        None
    }
}

/// A character literal at `from`, where a quote stands: one character
/// between quotes gives its code. After a backslash, a backslash or a quote
/// gives its own code, and anything else is read as a decimal number, with or
/// without a plus sign, which is the value.
pub open spec fn char_literal(s: Seq<u8>, from: int) -> Option<(ExprView, int)> {
    if from + 1 < s.len() && s[from + 1] != '\'' as u8 && s[from + 1] != '\\' as u8 {
        match scalar(s, from + 1) {
            Some((value, n)) => {
                if from + 1 + n < s.len() && s[from + 1 + n] == '\'' as u8 {
                    Some(
                        (
                            ExprView::Integer { pair: span(from, from + 2 + n), value },
                            from + 2 + n,
                        ),
                    )
                } else {
                    None
                }
            },
            None => None,
        }
    } else if from + 3 < s.len() && s[from + 1] == '\\' as u8 && (s[from + 2] == '\\' as u8
        || s[from + 2] == '\'' as u8) && s[from + 3] == '\'' as u8 {
        Some((ExprView::Integer { pair: span(from, from + 4), value: s[from + 2] as usize }, from + 4))
    } else if from + 1 < s.len() && s[from + 1] == '\\' as u8 {
        let digits = if from + 2 < s.len() && s[from + 2] == '+' as u8 {
            from + 3
        } else {
            from + 2
        };
        let end = digits + run(s, digits, Class::Digit);
        if end < s.len() && s[end] == '\'' as u8 {
            match number(s, digits, end, 10) {
                Some(value) => Some(
                    (ExprView::Integer { pair: span(from, end + 1), value }, end + 1),
                ),
                None => None,
            }
        } else {
            None
        }
    } else {
        None
    }
}

/// The code units of a string literal from `at` on, added to those in
/// `units`, and the offset behind the closing quote. Each byte is one code
/// unit. After a backslash, `0` is the code unit 0 and any other byte stands
/// for itself. A zero closes the code units.
pub open spec fn string_units(s: Seq<u8>, at: int, units: Seq<u16>) -> Option<(Seq<u16>, int)>
    decreases s.len() - at,
{
    if at < 0 || at >= s.len() {
        None
    } else if s[at] == '"' as u8 {
        Some((units.push(0), at + 1))
    } else if s[at] == '\\' as u8 {
        if at + 1 >= s.len() {
            None
        } else if s[at + 1] == '0' as u8 {
            string_units(s, at + 2, units.push(0))
        } else {
            string_units(s, at + 2, units.push(s[at + 1] as u16))
        }
    } else {
        string_units(s, at + 1, units.push(s[at] as u16))
    }
}

/// A string literal at `from`, where a double quote stands.
pub open spec fn string_literal(s: Seq<u8>, from: int) -> Option<(ExprView, int)> {
    match string_units(s, from + 1, Seq::empty()) {
        Some((value, end)) => Some((ExprView::String { pair: span(from, end), value }, end)),
        None => None,
    }
}

/// A term at `from`: a number, a character, a string or an identifier.
pub open spec fn term(s: Seq<u8>, from: int) -> Option<(ExprView, int)> {
    if from < 0 || from >= s.len() {
        None
    } else if is_digit(s[from]) {
        integer_literal(s, from)
    } else if s[from] == '\'' as u8 {
        char_literal(s, from)
    } else if s[from] == '"' as u8 {
        string_literal(s, from)
    } else if is_name_start(s[from]) {
        let end = from + run(s, from, Class::Name);
        Some((ExprView::LabelRef { pair: span(from, end), name: s.subrange(from, end) }, end))
    } else {
        None
    }
}

/// The operator that a byte writes.
pub open spec fn operator_of(b: u8) -> Option<Operator> {
    if b == '+' as u8 {
        Some(Operator::Add)
    } else if b == '-' as u8 {
        Some(Operator::Sub)
    } else {
        None
    }
}

/// The operand that begins with `lhs` and goes on at `from`: while an
/// operator follows, the term behind it is joined to what has been read.
pub open spec fn operand_tail(s: Seq<u8>, lhs: ExprView, from: int) -> Option<(ExprView, int)>
    decreases s.len() - from,
{
    let at = from + run(s, from, Class::Space);
    if 0 <= from && at < s.len() && operator_of(s[at]) is Some {
        let next = at + 1 + run(s, at + 1, Class::Space);
        match term(s, next) {
            None => None,
            Some((rhs, end)) => {
                proof {
                    lemma_term_advances(s, next);
                }
                operand_tail(
                    s,
                    ExprView::Compound {
                        pair: span(lhs.pair().start as int, end),
                        lhs: Box::new(lhs),
                        rhs: Box::new(rhs),
                        operator: operator_of(s[at])->0,
                    },
                    end,
                )
            },
        }
    } else {
        Some((lhs, from))
    }
}

/// An operand at `from`: a term, or terms joined by operators.
pub open spec fn operand(s: Seq<u8>, from: int) -> Option<(ExprView, int)> {
    match term(s, from) {
        None => None,
        Some((lhs, end)) => operand_tail(s, lhs, end),
    }
}

/// The operands from `from` on, separated by commas, added to those in
/// `list`, and the offset behind the last.
pub open spec fn operand_list(s: Seq<u8>, list: Seq<ExprView>, from: int) -> Option<
    (Seq<ExprView>, int),
>
    decreases s.len() - from,
{
    match operand(s, from) {
        None => None,
        Some((e, end)) => {
            let at = end + run(s, end, Class::Space);
            if at < s.len() && s[at] == ',' as u8 {
                proof {
                    lemma_operand_advances(s, from);
                    lemma_run_bounds(s, at + 1, Class::Space);
                }
                operand_list(s, list.push(e), at + 1 + run(s, at + 1, Class::Space))
            } else {
                Some((list.push(e), end))
            }
        },
    }
}

/// The directive that a mnemonic names, if it names one.
pub open spec fn directive_kind(name: Seq<u8>) -> Option<MacroKind> {
    if name == seq!['s' as u8, 't' as u8, 'r' as u8, 'i' as u8, 'n' as u8, 'g' as u8] {
        Some(MacroKind::String)
    } else if name == seq!['v' as u8, 'a' as u8, 'r' as u8] {
        Some(MacroKind::Var)
    } else if name == seq!['a' as u8, 'l' as u8, 'l' as u8, 'o' as u8, 'c' as u8] {
        Some(MacroKind::Alloc)
    } else if name == seq!['s' as u8, 't' as u8, 'a' as u8, 't' as u8, 'i' as u8, 'c' as u8] {
        Some(MacroKind::Static)
    } else {
        None
    }
}

/// Whether a statement ends at `at`: at the end of the text, a semicolon or
/// a comment.
pub open spec fn at_end(s: Seq<u8>, at: int) -> bool {
    at >= s.len() || s[at] == ';' as u8 || s[at] == '#' as u8
}

/// An instruction or directive at `from`, where an identifier starts: the
/// mnemonic and its operands.
pub open spec fn instruction(s: Seq<u8>, from: int) -> Option<(StatementView, int)> {
    let end = from + run(s, from, Class::Name);
    let name = s.subrange(from, end);
    let at = end + run(s, end, Class::Space);
    let operands = if at_end(s, at) {
        Some((Seq::<ExprView>::empty(), end))
    } else {
        operand_list(s, Seq::empty(), at)
    };
    match operands {
        None => None,
        Some((arguments, stop)) => Some(
            (
                match directive_kind(name) {
                    Some(kind) => StatementView::Macro(
                        MacroView { pair: span(from, end), kind, arguments, is_valid: false },
                    ),
                    None => StatementView::Instruction(
                        InstructionView { pair: span(from, end), name, arguments },
                    ),
                },
                stop,
            ),
        ),
    }
}

/// The statements of a line from `from` on, added to those in `list`.
/// `closed` says that an instruction has been read, after which only a
/// semicolon, a comment or the end of the line may follow.
pub open spec fn items(s: Seq<u8>, list: Seq<StatementView>, from: int, closed: bool) -> Option<
    Seq<StatementView>,
>
    decreases s.len() - from,
{
    let at = from + run(s, from, Class::Space);
    if from < 0 {
        None
    } else if at >= s.len() || s[at] == '#' as u8 {
        Some(list)
    } else if s[at] == ';' as u8 {
        items(s, list, at + 1, false)
    } else if closed || !is_name_start(s[at]) {
        None
    } else {
        let end = at + run(s, at, Class::Name);
        if end < s.len() && s[end] == ':' as u8 {
            items(
                s,
                list.push(
                    StatementView::Label(
                        LabelView {
                            pair: span(at, end),
                            name: s.subrange(at, end),
                            registered: false,
                        },
                    ),
                ),
                end + 1,
                false,
            )
        } else {
            match instruction(s, at) {
                None => None,
                Some((statement, stop)) => {
                    proof {
                        lemma_instruction_advances(s, at);
                    }
                    items(s, list.push(statement), stop, true)
                },
            }
        }
    }
}

/// The statements of a line, or `None` for a line that does not follow the
/// grammar.
pub open spec fn line(s: Seq<u8>) -> Option<Seq<StatementView>> {
    items(s, Seq::empty(), 0, false)
}

/// The statements of the lines from `from` on, added to those in `list`.
/// Offsets count from the start of the source. A line that does not follow
/// the grammar adds nothing.
pub open spec fn source_from(s: Seq<u8>, list: Seq<StatementView>, from: int) -> Seq<StatementView>
    decreases s.len() - from,
{
    if from < 0 || from >= s.len() {
        list
    } else {
        let end = from + run(s, from, Class::Line);
        let all = match items(s.take(end), Seq::empty(), from, false) {
            Some(found) => list + found,
            None => list,
        };
        if end < s.len() {
            source_from(s, all, end + 1)
        } else {
            all
        }
    }
}

/// The statements of a source.
pub open spec fn source(s: Seq<u8>) -> Seq<StatementView> {
    source_from(s, Seq::empty(), 0)
}

/// A run ends within the text.
pub proof fn lemma_run_bounds(s: Seq<u8>, from: int, class: Class)
    requires
        0 <= from <= s.len(),
    ensures
        from + run(s, from, class) <= s.len(),
    decreases s.len() - from,
{
    if from < s.len() && class.holds(s[from]) {
        lemma_run_bounds(s, from + 1, class);
    }
}

/// The code units of a string end behind where they began, within the text.
pub proof fn lemma_string_advances(s: Seq<u8>, at: int, units: Seq<u16>)
    ensures
        string_units(s, at, units) matches Some((value, end)) ==> at < end <= s.len()
            && value.len() > 0 && value.last() == 0,
    decreases s.len() - at,
{
    if 0 <= at < s.len() && s[at] != '"' as u8 {
        if s[at] == '\\' as u8 {
            if at + 1 < s.len() {
                if s[at + 1] == '0' as u8 {
                    lemma_string_advances(s, at + 2, units.push(0));
                } else {
                    lemma_string_advances(s, at + 2, units.push(s[at + 1] as u16));
                }
            }
        } else {
            lemma_string_advances(s, at + 1, units.push(s[at] as u16));
        }
    }
}

/// A term ends behind where it began, within the text, and is well formed.
pub proof fn lemma_term_advances(s: Seq<u8>, from: int)
    ensures
        term(s, from) matches Some((e, end)) ==> 0 <= from < end <= s.len() && e.wf(),
{
    if 0 <= from < s.len() {
        lemma_run_bounds(s, from, Class::Digit);
        lemma_run_bounds(s, from, Class::Name);
        if from + 2 <= s.len() {
            lemma_run_bounds(s, from + 2, Class::Hex);
            lemma_run_bounds(s, from + 2, Class::Digit);
        }
        if from + 3 <= s.len() {
            lemma_run_bounds(s, from + 3, Class::Digit);
        }
        lemma_string_advances(s, from + 1, Seq::empty());
    }
}

/// An operand that goes on ends no earlier than where it went on, within
/// the text, and is well formed.
pub proof fn lemma_operand_tail_advances(s: Seq<u8>, lhs: ExprView, from: int)
    requires
        0 <= from <= s.len(),
        lhs.wf(),
    ensures
        operand_tail(s, lhs, from) matches Some((e, end)) ==> from <= end <= s.len() && e.wf(),
    decreases s.len() - from,
{
    let at = from + run(s, from, Class::Space);
    if at < s.len() && operator_of(s[at]) is Some {
        let next = at + 1 + run(s, at + 1, Class::Space);
        lemma_term_advances(s, next);
        match term(s, next) {
            None => {},
            Some((rhs, end)) => {
                lemma_operand_tail_advances(
                    s,
                    ExprView::Compound {
                        pair: span(lhs.pair().start as int, end),
                        lhs: Box::new(lhs),
                        rhs: Box::new(rhs),
                        operator: operator_of(s[at])->0,
                    },
                    end,
                );
            },
        }
    }
}

/// An operand ends behind where it began, within the text, and is well
/// formed.
pub proof fn lemma_operand_advances(s: Seq<u8>, from: int)
    ensures
        operand(s, from) matches Some((e, end)) ==> 0 <= from < end <= s.len() && e.wf(),
{
    lemma_term_advances(s, from);
    match term(s, from) {
        None => {},
        Some((lhs, end)) => {
            lemma_operand_tail_advances(s, lhs, end);
        },
    }
}

/// A list of operands ends behind where it began, within the text.
pub proof fn lemma_operand_list_advances(s: Seq<u8>, list: Seq<ExprView>, from: int)
    ensures
        operand_list(s, list, from) matches Some((_, end)) ==> 0 <= from < end <= s.len(),
    decreases s.len() - from,
{
    lemma_operand_advances(s, from);
    match operand(s, from) {
        None => {},
        Some((e, end)) => {
            let at = end + run(s, end, Class::Space);
            if at < s.len() && s[at] == ',' as u8 {
                lemma_run_bounds(s, at + 1, Class::Space);
                lemma_operand_list_advances(
                    s,
                    list.push(e),
                    at + 1 + run(s, at + 1, Class::Space),
                );
            }
        },
    }
}

/// An instruction that starts with an identifier ends behind where it began,
/// within the text.
pub proof fn lemma_instruction_advances(s: Seq<u8>, from: int)
    requires
        0 <= from < s.len(),
        is_name_start(s[from]),
    ensures
        instruction(s, from) matches Some((_, end)) ==> from < end <= s.len(),
{
    lemma_run_bounds(s, from, Class::Name);
    let end = from + run(s, from, Class::Name);
    let at = end + run(s, end, Class::Space);
    if !at_end(s, at) {
        lemma_operand_list_advances(s, Seq::empty(), at);
    }
}

/// The digits of a prefix write no more than all the digits do.
pub proof fn lemma_number_grows(digits: Seq<u8>, k: int, base: nat)
    requires
        0 <= k <= digits.len(),
        base >= 1,
    ensures
        number_value(digits.take(k), base) <= number_value(digits, base),
    decreases digits.len() - k,
{
    if k < digits.len() {
        lemma_number_grows(digits, k + 1, base);
        let next = digits.take(k + 1);
        assert(next.drop_last() =~= digits.take(k));
        assert(number_value(next, base) >= number_value(digits.take(k), base)) by (nonlinear_arith)
            requires
                number_value(next, base) == number_value(digits.take(k), base) * base
                    + digit_value(next.last()),
                base >= 1,
        ;
    } else {
        assert(digits.take(k) =~= digits);
    }
}

/// Whether a parsed expression and the offset behind it are those of the
/// grammar.
pub open spec fn parsed(r: Option<(Expr, usize)>, model: Option<(ExprView, int)>) -> bool {
    match (r, model) {
        (Some((e, end)), Some((v, stop))) => e@ == v && end == stop,
        (None, None) => true,
        _ => false,
    }
}

/// Whether parsed statements are those of the grammar.
pub open spec fn parsed_line(r: Option<Vec<Statement>>, model: Option<Seq<StatementView>>) -> bool {
    match (r, model) {
        (Some(list), Some(views)) => crate::driver::views(list@) == views && crate::driver::all_wf(
            views,
        ),
        (None, None) => true,
        _ => false,
    }
}

/// The value of a digit; 0 for a byte that is none.
fn digit(b: u8) -> (r: usize)
    ensures
        r == digit_value(b),
        r < 16,
{
    if '0' as u8 <= b && b <= '9' as u8 {
        (b - '0' as u8) as usize
    } else if 'a' as u8 <= b && b <= 'f' as u8 {
        (b - 'a' as u8 + 10) as usize
    } else if 'A' as u8 <= b && b <= 'F' as u8 {
        (b - 'A' as u8 + 10) as usize
    } else {
        0
    }
}

/// Whether a byte may start an identifier.
fn starts_name(b: u8) -> (r: bool)
    ensures
        r == is_name_start(b),
{
    ('a' as u8 <= b && b <= 'z' as u8) || ('A' as u8 <= b && b <= 'Z' as u8) || b == '_' as u8
        || b == '.' as u8
}

/// The directive that a mnemonic names, if it names one.
fn directive(name: &[u8]) -> (r: Option<MacroKind>)
    ensures
        r == directive_kind(name@),
{
    let n = name.len();
    if n == 6 && name[0] == 's' as u8 && name[1] == 't' as u8 && name[2] == 'r' as u8 && name[3]
        == 'i' as u8 && name[4] == 'n' as u8 && name[5] == 'g' as u8 {
        assert(name@ =~= seq!['s' as u8, 't' as u8, 'r' as u8, 'i' as u8, 'n' as u8, 'g' as u8]);
        Some(MacroKind::String)
    } else if n == 3 && name[0] == 'v' as u8 && name[1] == 'a' as u8 && name[2] == 'r' as u8 {
        assert(name@ =~= seq!['v' as u8, 'a' as u8, 'r' as u8]);
        Some(MacroKind::Var)
    } else if n == 5 && name[0] == 'a' as u8 && name[1] == 'l' as u8 && name[2] == 'l' as u8
        && name[3] == 'o' as u8 && name[4] == 'c' as u8 {
        assert(name@ =~= seq!['a' as u8, 'l' as u8, 'l' as u8, 'o' as u8, 'c' as u8]);
        Some(MacroKind::Alloc)
    } else if n == 6 && name[0] == 's' as u8 && name[1] == 't' as u8 && name[2] == 'a' as u8
        && name[3] == 't' as u8 && name[4] == 'i' as u8 && name[5] == 'c' as u8 {
        assert(name@ =~= seq!['s' as u8, 't' as u8, 'a' as u8, 't' as u8, 'i' as u8, 'c' as u8]);
        Some(MacroKind::Static)
    } else {
        None
    }
}

/// A parser over a text.
#[derive(Debug, Clone, Copy)]
pub struct AsmParser<'a> {
    pub input: &'a [u8],
}

impl<'a> AsmParser<'a> {
    /// A parser over the given text.
    pub fn new(input: &'a [u8]) -> (parser: Self)
        ensures
            parser.input@ == input@,
    {
        AsmParser { input }
    }

    /// The offset behind the bytes of a class that follow one another from
    /// `from` on.
    fn scan(&self, from: usize, class: Class) -> (end: usize)
        requires
            from <= self.input@.len(),
        ensures
            end == from + run(self.input@, from as int, class),
            from <= end <= self.input@.len(),
    {
        let mut end: usize = from;
        while end < self.input.len() && class.test(self.input[end])
            invariant
                from <= end <= self.input@.len(),
                from + run(self.input@, from as int, class) == end + run(
                    self.input@,
                    end as int,
                    class,
                ),
            decreases self.input@.len() - end,
        {
            end += 1;
        }
        end
    }

    /// The bytes in `[from, to)`.
    fn copy(&self, from: usize, to: usize) -> (r: Vec<u8>)
        requires
            from <= to <= self.input@.len(),
        ensures
            r@ == self.input@.subrange(from as int, to as int),
    {
        let mut out: Vec<u8> = Vec::new();
        let mut i: usize = from;
        while i < to
            invariant
                from <= i <= to <= self.input@.len(),
                out@ == self.input@.subrange(from as int, i as int),
            decreases to - i,
        {
            out.push(self.input[i]);
            i += 1;
            assert(out@ =~= self.input@.subrange(from as int, i as int));
        }
        out
    }

    /// The number written by the digits in `[from, to)`.
    fn number(&self, from: usize, to: usize, base: usize) -> (r: Option<usize>)
        requires
            from <= to <= self.input@.len(),
            base == 10 || base == 16,
        ensures
            r == number(self.input@, from as int, to as int, base as nat),
    {
        if from >= to {
            return None;
        }
        let ghost digits = self.input@.subrange(from as int, to as int);
        let mut value: usize = 0;
        let mut i: usize = from;
        assert(self.input@.subrange(from as int, i as int) =~= Seq::<u8>::empty());
        while i < to
            invariant
                from <= i <= to <= self.input@.len(),
                base == 10 || base == 16,
                digits == self.input@.subrange(from as int, to as int),
                value == number_value(self.input@.subrange(from as int, i as int), base as nat),
            decreases to - i,
        {
            let d = digit(self.input[i]);
            let ghost next = self.input@.subrange(from as int, i + 1);
            proof {
                assert(next.drop_last() =~= self.input@.subrange(from as int, i as int));
                assert(next =~= digits.take(i + 1 - from));
                lemma_number_grows(digits, i + 1 - from, base as nat);
            }
            if value > (usize::MAX - d) / base {
                assert(value * base + d > usize::MAX) by (nonlinear_arith)
                    requires
                        value > (usize::MAX - d) / (base as int),
                        base >= 1,
                ;
                return None;
            }
            assert(value * base + d <= usize::MAX) by (nonlinear_arith)
                requires
                    value <= (usize::MAX - d) / (base as int),
                    base >= 1,
                    d <= usize::MAX,
            ;
            value = value * base + d;
            i += 1;
        }
        assert(self.input@.subrange(from as int, i as int) =~= digits);
        Some(value)
    }

    /// A number literal at `from`.
    fn integer_literal(&self, from: usize) -> (r: Option<(Expr, usize)>)
        requires
            from < self.input@.len(),
        ensures
            parsed(r, integer_literal(self.input@, from as int)),
    {
        let s = self.input;
        if s.len() - from > 1 && s[from] == '0' as u8 && (s[from + 1] == 'x' as u8 || s[from + 1]
            == 'X' as u8) {
            let end = self.scan(from + 2, Class::Hex);
            match self.number(from + 2, end, 16) {
                Some(value) => Some((Expr::Integer { pair: Pair { start: from, end }, value }, end)),
                None => None,
            }
        } else {
            let end = self.scan(from, Class::Digit);
            match self.number(from, end, 10) {
                Some(value) => Some((Expr::Integer { pair: Pair { start: from, end }, value }, end)),
                None => None,
            }
        }
    }

    /// The code of the character written at `at` in UTF-8, and the number of
    /// its bytes.
    fn scalar(&self, at: usize) -> (r: Option<(usize, usize)>)
        requires
            at < self.input@.len(),
        ensures
            match scalar(self.input@, at as int) {
                Some((value, n)) => r == Some((value, n as usize)) && 1 <= n <= 4 && at + n
                    <= self.input@.len(),
                None => r is None,
            },
    {
        let s = self.input;
        let left = s.len() - at;
        let b = s[at];
        if b < 0x80 {
            Some((b as usize, 1))
        } else if 0xC0 <= b && b < 0xE0 && left > 1 && 0x80 <= s[at + 1] && s[at + 1] < 0xC0 {
            Some(((b - 0xC0) as usize * 0x40 + (s[at + 1] - 0x80) as usize, 2))
        } else if 0xE0 <= b && b < 0xF0 && left > 2 && 0x80 <= s[at + 1] && s[at + 1] < 0xC0
            && 0x80 <= s[at + 2] && s[at + 2] < 0xC0 {
            Some(
                (
                    (b - 0xE0) as usize * 0x1000 + (s[at + 1] - 0x80) as usize * 0x40 + (s[at + 2]
                        - 0x80) as usize,
                    3,
                ),
            )
        } else if 0xF0 <= b && b < 0xF8 && left > 3 && 0x80 <= s[at + 1] && s[at + 1] < 0xC0
            && 0x80 <= s[at + 2] && s[at + 2] < 0xC0 && 0x80 <= s[at + 3] && s[at + 3] < 0xC0 {
            Some(
                (
                    (b - 0xF0) as usize * 0x4_0000 + (s[at + 1] - 0x80) as usize * 0x1000 + (s[at
                        + 2] - 0x80) as usize * 0x40 + (s[at + 3] - 0x80) as usize,
                    4,
                ),
            )
        } else {
            None
        }
    }

    /// A character literal at `from`.
    fn char_literal(&self, from: usize) -> (r: Option<(Expr, usize)>)
        requires
            from < self.input@.len(),
        ensures
            parsed(r, char_literal(self.input@, from as int)),
    {
        let s = self.input;
        let left = s.len() - from;
        if left > 1 && s[from + 1] != '\'' as u8 && s[from + 1] != '\\' as u8 {
            match self.scalar(from + 1) {
                Some((value, n)) => {
                    if n < left - 1 && s[from + 1 + n] == '\'' as u8 {
                        Some(
                            (
                                Expr::Integer { pair: Pair { start: from, end: from + 2 + n }, value },
                                from + 2 + n,
                            ),
                        )
                    } else {
                        None
                    }
                },
                None => None,
            }
        } else if left > 3 && s[from + 1] == '\\' as u8 && (s[from + 2] == '\\' as u8 || s[from
            + 2] == '\'' as u8) && s[from + 3] == '\'' as u8 {
            Some(
                (
                    Expr::Integer {
                        pair: Pair { start: from, end: from + 4 },
                        value: s[from + 2] as usize,
                    },
                    from + 4,
                ),
            )
        } else if left > 1 && s[from + 1] == '\\' as u8 {
            let digits = if left > 2 && s[from + 2] == '+' as u8 {
                from + 3
            } else {
                from + 2
            };
            let end = self.scan(digits, Class::Digit);
            if end < s.len() && s[end] == '\'' as u8 {
                match self.number(digits, end, 10) {
                    Some(value) => Some(
                        (Expr::Integer { pair: Pair { start: from, end: end + 1 }, value }, end + 1),
                    ),
                    None => None,
                }
            } else {
                None
            }
        } else {
            None
        }
    }

    /// A string literal at `from`.
    fn string_literal(&self, from: usize) -> (r: Option<(Expr, usize)>)
        requires
            from < self.input@.len(),
        ensures
            parsed(r, string_literal(self.input@, from as int)),
    {
        let s = self.input;
        let mut units: Vec<u16> = Vec::new();
        assert(from < s.len());
        let mut at: usize = from + 1;
        loop
            invariant
                from < at <= s@.len(),
                s@ == self.input@,
                string_units(s@, at as int, units@) == string_units(
                    s@,
                    from + 1,
                    Seq::<u16>::empty(),
                ),
            decreases s@.len() - at,
        {
            if at >= s.len() {
                return None;
            }
            let b = s[at];
            if b == '"' as u8 {
                units.push(0);
                return Some(
                    (Expr::String { pair: Pair { start: from, end: at + 1 }, value: units }, at + 1),
                );
            } else if b == '\\' as u8 {
                if s.len() - at < 2 {
                    return None;
                }
                let c = s[at + 1];
                if c == '0' as u8 {
                    units.push(0);
                } else {
                    units.push(c as u16);
                }
                at += 2;
            } else {
                units.push(b as u16);
                at += 1;
            }
        }
    }

    /// A term at `from`.
    fn term(&self, from: usize) -> (r: Option<(Expr, usize)>)
        requires
            from <= self.input@.len(),
        ensures
            parsed(r, term(self.input@, from as int)),
            r matches Some((e, end)) ==> from < end <= self.input@.len() && e.wf(),
    {
        proof {
            lemma_term_advances(self.input@, from as int);
        }
        let s = self.input;
        if from >= s.len() {
            return None;
        }
        let b = s[from];
        if Class::Digit.test(b) {
            self.integer_literal(from)
        } else if b == '\'' as u8 {
            self.char_literal(from)
        } else if b == '"' as u8 {
            self.string_literal(from)
        } else if starts_name(b) {
            let end = self.scan(from, Class::Name);
            let name = self.copy(from, end);
            Some((Expr::LabelRef { pair: Pair { start: from, end }, name }, end))
        } else {
            None
        }
    }

    /// An operand at `from`.
    fn operand(&self, from: usize) -> (r: Option<(Expr, usize)>)
        requires
            from <= self.input@.len(),
        ensures
            parsed(r, operand(self.input@, from as int)),
            r matches Some((e, end)) ==> from < end <= self.input@.len() && e.wf(),
    {
        let s = self.input;
        let (mut lhs, mut end) = match self.term(from) {
            Some(found) => found,
            None => {
                return None;
            },
        };
        loop
            invariant
                s@ == self.input@,
                from < end <= s@.len(),
                lhs.wf(),
                operand_tail(s@, lhs@, end as int) == operand(s@, from as int),
            decreases s@.len() - end,
        {
            let at = self.scan(end, Class::Space);
            if at >= s.len() {
                return Some((lhs, end));
            }
            let operator = if s[at] == '+' as u8 {
                Operator::Add
            } else if s[at] == '-' as u8 {
                Operator::Sub
            } else {
                return Some((lhs, end));
            };
            let next = self.scan(at + 1, Class::Space);
            let (rhs, stop) = match self.term(next) {
                Some(found) => found,
                None => {
                    return None;
                },
            };
            let pair = Pair { start: lhs.pair().start, end: stop };
            lhs = Expr::Compound(
                Compound { pair, lhs: Box::new(lhs), rhs: Box::new(rhs), operator },
            );
            end = stop;
        }
    }

    /// The operands from `from` on, separated by commas.
    fn operand_list(&self, from: usize) -> (r: Option<(Vec<Expr>, usize)>)
        requires
            from <= self.input@.len(),
        ensures
            match operand_list(self.input@, Seq::empty(), from as int) {
                Some((views, stop)) => r matches Some((list, end)) && crate::ast::arguments::views(
                    list@,
                ) == views && end == stop && from < end <= self.input@.len()
                    && crate::ast::arguments::all_wf(views),
                None => r is None,
            },
    {
        let s = self.input;
        let mut list: Vec<Expr> = Vec::new();
        let mut at: usize = from;
        assert(crate::ast::arguments::views(list@) =~= Seq::<ExprView>::empty());
        loop
            invariant
                s@ == self.input@,
                from <= at <= s@.len(),
                crate::ast::arguments::all_wf(crate::ast::arguments::views(list@)),
                operand_list(s@, crate::ast::arguments::views(list@), at as int) == operand_list(
                    s@,
                    Seq::empty(),
                    from as int,
                ),
            decreases s@.len() - at,
        {
            let (e, end) = match self.operand(at) {
                Some(found) => found,
                None => {
                    return None;
                },
            };
            let ghost before = crate::ast::arguments::views(list@);
            list.push(e);
            assert(crate::ast::arguments::views(list@) =~= before.push(e@));
            let comma = self.scan(end, Class::Space);
            if comma < s.len() && s[comma] == ',' as u8 {
                at = self.scan(comma + 1, Class::Space);
            } else {
                return Some((list, end));
            }
        }
    }

    /// An instruction or directive at `from`, where an identifier starts.
    fn instruction(&self, from: usize) -> (r: Option<(Statement, usize)>)
        requires
            from < self.input@.len(),
            is_name_start(self.input@[from as int]),
        ensures
            match instruction(self.input@, from as int) {
                Some((view, stop)) => r matches Some((statement, end)) && statement@ == view
                    && statement.wf() && end == stop && from < end <= self.input@.len(),
                None => r is None,
            },
    {
        proof {
            lemma_instruction_advances(self.input@, from as int);
        }
        let s = self.input;
        let end = self.scan(from, Class::Name);
        let name = self.copy(from, end);
        let at = self.scan(end, Class::Space);
        let pair = Pair { start: from, end };
        let (list, stop) = if at >= s.len() || s[at] == ';' as u8 || s[at] == '#' as u8 {
            let list: Vec<Expr> = Vec::new();
            assert(crate::ast::arguments::views(list@) =~= Seq::<ExprView>::empty());
            (list, end)
        } else {
            match self.operand_list(at) {
                Some(found) => found,
                None => {
                    return None;
                },
            }
        };
        let arguments = Arguments { expr_list: list };
        let statement = match directive(name.as_slice()) {
            Some(kind) => Statement::Macro(Macro { arguments, pair, kind, is_valid: false }),
            None => Statement::Instruction(Instruction { arguments, pair, name }),
        };
        Some((statement, stop))
    }

    /// The statements of the text from `from` on, read as one line.
    pub fn line(&self, from: usize) -> (r: Option<Vec<Statement>>)
        ensures
            parsed_line(r, items(self.input@, Seq::empty(), from as int, false)),
    {
        let s = self.input;
        let mut list: Vec<Statement> = Vec::new();
        let mut at: usize = from;
        let mut closed = false;
        assert(crate::driver::views(list@) =~= Seq::<StatementView>::empty());
        if from > s.len() {
            return Some(list);
        }
        loop
            invariant
                s@ == self.input@,
                from <= at <= s@.len(),
                crate::driver::all_wf(crate::driver::views(list@)),
                items(s@, crate::driver::views(list@), at as int, closed) == items(
                    s@,
                    Seq::empty(),
                    from as int,
                    false,
                ),
            decreases s@.len() - at,
        {
            let start = self.scan(at, Class::Space);
            if start >= s.len() || s[start] == '#' as u8 {
                return Some(list);
            }
            if s[start] == ';' as u8 {
                at = start + 1;
                closed = false;
                continue ;
            }
            if closed || !starts_name(s[start]) {
                return None;
            }
            let end = self.scan(start, Class::Name);
            let ghost before = crate::driver::views(list@);
            if end < s.len() && s[end] == ':' as u8 {
                let name = self.copy(start, end);
                let label = Statement::Label(
                    Label { pair: Pair { start, end }, name, registered: false },
                );
                list.push(label);
                assert(crate::driver::views(list@) =~= before.push(label@));
                at = end + 1;
                closed = false;
            } else {
                let (statement, stop) = match self.instruction(start) {
                    Some(found) => found,
                    None => {
                        return None;
                    },
                };
                list.push(statement);
                assert(crate::driver::views(list@) =~= before.push(statement@));
                at = stop;
                closed = true;
            }
        }
    }
}

/// Parses one line into its statements. Returns `None` for a line that does
/// not follow the grammar.
pub fn parse_line(input: &str) -> (r: Option<Vec<Statement>>)
    ensures
        parsed_line(r, line(input.spec_bytes())),
{
    AsmParser::new(input.as_bytes()).line(0)
}

/// Parses a source into its statements, line by line. A line that does not
/// follow the grammar gives no statement.
pub fn parse_source(input: &[u8]) -> (r: Vec<Statement>)
    ensures
        crate::driver::views(r@) == source(input@),
        crate::driver::all_wf(source(input@)),
{
    let whole = AsmParser::new(input);
    let mut list: Vec<Statement> = Vec::new();
    let mut from: usize = 0;
    assert(crate::driver::views(list@) =~= Seq::<StatementView>::empty());
    loop
        invariant
            whole.input@ == input@,
            from <= input@.len(),
            crate::driver::all_wf(crate::driver::views(list@)),
            source_from(input@, crate::driver::views(list@), from as int) == source(input@),
        decreases input@.len() - from,
    {
        if from >= input.len() {
            return list;
        }
        let end = whole.scan(from, Class::Line);
        let found = AsmParser::new(slice_subrange(input, 0, end)).line(from);
        let ghost before = crate::driver::views(list@);
        if let Some(found) = found {
            let ghost added = crate::driver::views(found@);
            for statement in it: found
                invariant
                    it.seq() == found@,
                    added == crate::driver::views(found@),
                    crate::driver::all_wf(added),
                    crate::driver::all_wf(crate::driver::views(list@)),
                    crate::driver::views(list@) == before + added.take(it.index()),
            {
                let ghost prior = crate::driver::views(list@);
                list.push(statement);
                assert(crate::driver::views(list@) =~= prior.push(statement@));
                assert(added.take(it.index() + 1) =~= added.take(it.index()).push(statement@));
                assert(crate::driver::views(list@) =~= before + added.take(it.index() + 1));
                assert(added[it.index()].wf());
            }
            assert(added.take(added.len() as int) =~= added);
        }
        if end >= input.len() {
            return list;
        }
        from = end + 1;
    }
}

} // verus!
