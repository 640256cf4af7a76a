//! Classifies one source line as an address instruction, a compute
//! instruction or a symbol declaration, and numbers the instructions.

use vstd::prelude::*;
use vstd::slice::slice_subrange;
use crate::error::AssemblyError;
use crate::text::{
    chars_of, find_char, first_index, lemma_blank, lemma_first_index, lemma_split, push_char,
    split, string_of, strip_whitespace, trim, without_whitespace,
};

verus! {

/// What a source line says.
#[derive(Debug, Clone, PartialEq)]
pub enum InstructionVariant {
    /// `@` and a numeral: loads the number into the address register.
    A(String),
    /// `dest=comp;jmp`, where `dest` and `jmp` are empty when absent.
    C { comp: String, dest: String, jmp: String },
    /// A variable, written `@name`, or a label, written `(name)`.
    Symbol { symbol: String, is_variable: bool },
}

/// A parsed line with the number of the instruction it is, or, for a
/// label, of the instruction that follows it.
#[derive(Debug, Clone)]
pub struct Instruction {
    pub variant: InstructionVariant,
    pub line_number: u16,
}

/// The mathematical content of an `InstructionVariant`.
pub enum VariantView {
    A(Seq<char>),
    C { comp: Seq<char>, dest: Seq<char>, jmp: Seq<char> },
    Symbol { symbol: Seq<char>, is_variable: bool },
}

/// The mathematical content of an `Instruction`.
pub struct InstructionView {
    pub variant: VariantView,
    pub line_number: u16,
}

impl View for InstructionVariant {
    type V = VariantView;

    open spec fn view(&self) -> VariantView {
        match self {
            InstructionVariant::A(value) => VariantView::A(value@),
            InstructionVariant::C { comp, dest, jmp } => VariantView::C {
                comp: comp@,
                dest: dest@,
                jmp: jmp@,
            },
            InstructionVariant::Symbol { symbol, is_variable } => VariantView::Symbol {
                symbol: symbol@,
                is_variable: *is_variable,
            },
        }
    }
}

impl View for Instruction {
    type V = InstructionView;

    open spec fn view(&self) -> InstructionView {
        InstructionView { variant: self.variant@, line_number: self.line_number }
    }
}

/// Whether `c` is a decimal digit.
pub open spec fn is_digit(c: char) -> bool {
    '0' <= c <= '9'
}

/// Whether `s` is one decimal digit or more.
pub open spec fn is_digits(s: Seq<char>) -> bool {
    s.len() > 0 && forall|i: int| 0 <= i < s.len() ==> is_digit(#[trigger] s[i])
}

/// The number that the decimal digits `s` write.
pub open spec fn digits_value(s: Seq<char>) -> nat
    decreases s.len(),
{
    if s.len() == 0 {
        0
    } else {
        (10 * digits_value(s.drop_last()) + (s.last() as u32 - '0' as u32)) as nat
    }
}

/// The number that `s` writes, where it is a numeral: decimal digits, with
/// or without a `+` before them.
pub open spec fn numeral_value(s: Seq<char>) -> Option<nat> {
    let digits = if s.len() > 0 && s.first() == '+' { s.drop_first() } else { s };
    if is_digits(digits) {
        Some(digits_value(digits))
    } else {
        None
    }
}

/// What follows the `@` of an address line: a numeral, however large, is
/// the value of an address instruction, anything else the name of a
/// variable.
pub open spec fn parse_address(rest: Seq<char>) -> VariantView {
    if numeral_value(rest) is Some {
        VariantView::A(rest)
    } else {
        VariantView::Symbol { symbol: rest, is_variable: true }
    }
}

/// The name in a label line `s`, which starts with `(`: what follows the
/// `(`, without the `)` at its end where there is one.
pub open spec fn label_name(s: Seq<char>) -> Seq<char> {
    let inner = s.drop_first();
    if inner.len() > 0 && inner.last() == ')' {
        inner.drop_last()
    } else {
        inner
    }
}

/// The fields of the compute line `s`: the destination before `=`, empty
/// without one; then the computation; the jump after `;`, empty without one.
pub open spec fn parse_compute(s: Seq<char>) -> Result<VariantView, AssemblyError> {
    let parts = split(s, '=');
    if parts.len() > 2 {
        Err(AssemblyError::MalformedInstruction)
    } else {
        let dest = if parts.len() == 2 { parts.first() } else { Seq::<char>::empty() };
        let pieces = split(parts.last(), ';');
        if pieces.len() > 2 {
            Err(AssemblyError::MalformedInstruction)
        } else {
            Ok(
                VariantView::C {
                    comp: pieces.first(),
                    dest,
                    jmp: if pieces.len() == 2 { pieces.last() } else { Seq::<char>::empty() },
                },
            )
        }
    }
}

/// What the line says, read without its white space: a line that starts
/// with `@` is an address line, one with `(` a label, any other a compute
/// instruction.
pub open spec fn parse_line(line: Seq<char>) -> Result<VariantView, AssemblyError> {
    let s = without_whitespace(line);
    if s.len() == 0 {
        Err(AssemblyError::EmptyInstruction)
    } else if s.first() == '@' {
        Ok(parse_address(s.drop_first()))
    } else if s.first() == '(' {
        Ok(VariantView::Symbol { symbol: label_name(s), is_variable: false })
    } else {
        parse_compute(s)
    }
}

/// Whether a line of this kind is an instruction of the program. A label
/// is none: it marks the instruction that follows it.
pub open spec fn takes_position(v: VariantView) -> bool {
    !(v matches VariantView::Symbol { is_variable, .. } && !is_variable)
}

/// The instruction that a parser which has counted `count` instructions
/// makes of `line`, and its count afterwards.
pub open spec fn parse_step(count: u16, line: Seq<char>) -> Result<
    (InstructionView, u16),
    AssemblyError,
> {
    match parse_line(line) {
        Err(e) => Err(e),
        Ok(v) => if !takes_position(v) {
            Ok((InstructionView { variant: v, line_number: count }, count))
        } else if count == u16::MAX {
            Err(AssemblyError::AddressSpaceExhausted)
        } else {
            Ok((InstructionView { variant: v, line_number: count }, (count + 1) as u16))
        },
    }
}

/// The source text of an instruction: `@value`, `(label)`, `@variable`, or
/// `dest=comp;jmp` without `dest=` or `;jmp` where that field is empty.
pub open spec fn source_text(v: VariantView) -> Seq<char> {
    match v {
        VariantView::A(value) => seq!['@'] + value,
        VariantView::C { comp, dest, jmp } => {
            let head = if dest.len() > 0 { dest + seq!['='] } else { Seq::<char>::empty() };
            let tail = if jmp.len() > 0 { seq![';'] + jmp } else { Seq::<char>::empty() };
            head + comp + tail
        },
        VariantView::Symbol { symbol, is_variable } => if is_variable {
            seq!['@'] + symbol
        } else {
            seq!['('] + symbol + seq![')']
        },
    }
}

/// Whether the line `s`, which holds no white space and is not empty,
/// is written as the parser writes it back: a label ends with `)`, and a
/// compute instruction has no `=` after an empty destination and no `;`
/// before an empty jump.
pub open spec fn is_normal_form(s: Seq<char>) -> bool {
    if s.first() == '@' {
        true
    } else if s.first() == '(' {
        s.len() >= 2 && s.last() == ')'
    } else {
        let parts = split(s, '=');
        let pieces = split(parts.last(), ';');
        &&& parts.len() == 2 ==> parts.first().len() > 0
        &&& pieces.len() == 2 ==> pieces.last().len() > 0
    }
}

/// Whether `line` is an instruction of the program: it parses, and to
/// something other than a label.
pub open spec fn is_instruction(line: Seq<char>) -> bool {
    parse_line(line) matches Ok(v) && takes_position(v)
}

/// How many of `lines` are instructions.
pub open spec fn instruction_count(lines: Seq<Seq<char>>) -> nat
    decreases lines.len(),
{
    if lines.len() == 0 {
        0
    } else {
        (if is_instruction(lines.first()) { 1nat } else { 0nat }) + instruction_count(
            lines.drop_first(),
        )
    }
}

/// The count of a parser that had counted `count` instructions and has
/// then read `lines`.
pub open spec fn count_after(count: u16, lines: Seq<Seq<char>>) -> Result<u16, AssemblyError>
    decreases lines.len(),
{
    if lines.len() == 0 {
        Ok(count)
    } else {
        match parse_step(count, lines.first()) {
            Err(e) => Err(e),
            Ok((_, next)) => count_after(next, lines.drop_first()),
        }
    }
}

/// The digits written so far never count for more than the whole numeral.
proof fn lemma_digits_value_prefix(s: Seq<char>, k: int)
    requires
        0 <= k <= s.len(),
        forall|i: int| 0 <= i < s.len() ==> is_digit(#[trigger] s[i]),
    ensures
        digits_value(s.take(k)) <= digits_value(s),
    decreases s.len() - k,
{
    if k == s.len() {
        assert(s.take(k) == s);
    } else {
        lemma_digits_value_prefix(s, k + 1);
        assert(s.take(k + 1).drop_last() == s.take(k));
        assert(is_digit(s[k]));
    }
}

/// Reads `s` as a numeral and returns its value where that is at most `limit`.
pub fn parse_numeral(s: &[char], limit: u32) -> (r: Option<u32>)
    ensures
        r == match numeral_value(s@) {
            Some(v) if v <= limit => Some(v as u32),
            _ => None::<u32>,
        },
{
    let start: usize = if s.len() > 0 && s[0] == '+' { 1 } else { 0 };
    let ghost digits = s@.skip(start as int);
    proof {
        assert(s@.skip(0) == s@);
        assert(s@.len() > 0 ==> s@.skip(1) == s@.drop_first());
    }
    if start == s.len() {
        return None;
    }
    let mut value: u64 = 0;
    let mut i: usize = start;
    while i < s.len()
        invariant
            start <= i <= s.len(),
            digits == s@.skip(start as int),
            numeral_value(s@) == if is_digits(digits) {
                Some(digits_value(digits))
            } else {
                None
            },
            forall|j: int| 0 <= j < i - start ==> is_digit(#[trigger] digits[j]),
            value == digits_value(digits.take(i - start)),
            value <= limit,
        decreases s.len() - i,
    {
        let c = s[i];
        if c < '0' || c > '9' {
            assert(!is_digit(digits[i - start]));
            return None;
        }
        let digit: u64 = (c as u32 - '0' as u32) as u64;
        proof {
            assert(digits.take(i + 1 - start).drop_last() == digits.take(i - start));
            assert(digits.take(i + 1 - start).last() == c);
        }
        value = value * 10 + digit;
        if value > limit as u64 {
            proof {
                if is_digits(digits) {
                    lemma_digits_value_prefix(digits, i + 1 - start);
                }
            }
            return None;
        }
        i += 1;
    }
    proof {
        assert(digits.take(i - start) == digits);
    }
    Some(value as u32)
}

/// Tells whether `s` is a numeral: decimal digits, with or without a `+`
/// before them.
pub fn is_numeral(s: &[char]) -> (r: bool)
    ensures
        r == numeral_value(s@) is Some,
{
    let start: usize = if s.len() > 0 && s[0] == '+' { 1 } else { 0 };
    let ghost digits = s@.skip(start as int);
    proof {
        assert(s@.skip(0) == s@);
        assert(s@.len() > 0 ==> s@.skip(1) == s@.drop_first());
    }
    if start == s.len() {
        return false;
    }
    let mut i: usize = start;
    while i < s.len()
        invariant
            start <= i <= s.len(),
            start < s.len(),
            digits == s@.skip(start as int),
            numeral_value(s@) is Some <==> is_digits(digits),
            forall|j: int| 0 <= j < i - start ==> is_digit(#[trigger] digits[j]),
        decreases s.len() - i,
    {
        let c = s[i];
        if c < '0' || c > '9' {
            assert(!is_digit(digits[i - start]));
            return false;
        }
        i += 1;
    }
    true
}

/// Classifies what follows the `@` of an address line.
fn parse_address_field(rest: &[char]) -> (r: InstructionVariant)
    ensures
        r@ == parse_address(rest@),
{
    if is_numeral(rest) {
        InstructionVariant::A(string_of(rest))
    } else {
        InstructionVariant::Symbol { symbol: string_of(rest), is_variable: true }
    }
}

/// Reads the label line `s`.
fn parse_label(s: &[char]) -> (r: InstructionVariant)
    requires
        s@.len() > 0,
    ensures
        r@ == (VariantView::Symbol { symbol: label_name(s@), is_variable: false }),
{
    let n = s.len();
    let end: usize = if n > 1 && s[n - 1] == ')' { n - 1 } else { n };
    let name = slice_subrange(s, 1, end);
    proof {
        let inner = s@.drop_first();
        if end < n {
            assert(name@ == inner.drop_last());
        } else {
            assert(name@ == inner);
        }
    }
    InstructionVariant::Symbol { symbol: string_of(name), is_variable: false }
}

/// Reads the compute line `s`.
fn parse_compute_fields(s: &[char]) -> (r: Result<InstructionVariant, AssemblyError>)
    ensures
        match parse_compute(s@) {
            Ok(v) => r is Ok && r->Ok_0@ == v,
            Err(e) => r is Err && r->Err_0 == e,
        },
{
    let n = s.len();
    let eq = find_char(s, '=');
    proof {
        lemma_first_index(s@, '=');
        lemma_split(s@, '=');
    }
    let clause = if eq < n { slice_subrange(s, eq + 1, n) } else { s };
    if eq < n {
        let second = find_char(clause, '=');
        proof {
            lemma_first_index(clause@, '=');
        }
        if second < clause.len() {
            return Err(AssemblyError::MalformedInstruction);
        }
    }
    let dest = slice_subrange(s, 0, if eq < n { eq } else { 0 });
    proof {
        let parts = split(s@, '=');
        if eq < n {
            assert(clause@ == s@.skip(eq + 1));
            assert(dest@ == s@.take(eq as int));
            assert(parts == seq![s@.take(eq as int), s@.skip(eq + 1)]);
        } else {
            assert(parts == seq![s@]);
            assert(dest@ =~= Seq::<char>::empty());
        }
        assert(clause@ == parts.last());
        assert(dest@ == if parts.len() == 2 { parts.first() } else { Seq::<char>::empty() });
    }
    let m = clause.len();
    let semi = find_char(clause, ';');
    proof {
        lemma_first_index(clause@, ';');
        lemma_split(clause@, ';');
    }
    let comp = slice_subrange(clause, 0, semi);
    let jmp = if semi < m {
        slice_subrange(clause, semi + 1, m)
    } else {
        slice_subrange(clause, 0, 0)
    };
    if semi < m {
        let second = find_char(jmp, ';');
        proof {
            lemma_first_index(jmp@, ';');
        }
        if second < jmp.len() {
            return Err(AssemblyError::MalformedInstruction);
        }
    }
    proof {
        let pieces = split(clause@, ';');
        if semi < m {
            assert(jmp@ == clause@.skip(semi + 1));
            assert(comp@ == clause@.take(semi as int));
            assert(pieces == seq![clause@.take(semi as int), clause@.skip(semi + 1)]);
        } else {
            assert(pieces == seq![clause@]);
            assert(comp@ == clause@);
            assert(jmp@ =~= Seq::<char>::empty());
        }
    }
    Ok(InstructionVariant::C { comp: string_of(comp), dest: string_of(dest), jmp: string_of(jmp) })
}

impl Instruction {
    /// The instruction as source text.
    pub fn rep(&self) -> (r: String)
        ensures
            r@ == source_text(self@.variant),
    {
        let mut text = String::new();
        match &self.variant {
            InstructionVariant::A(value) => {
                push_char(&mut text, '@');
                text.append(value.as_str());
            },
            InstructionVariant::C { comp, dest, jmp } => {
                if !dest.as_str().is_empty() {
                    text.append(dest.as_str());
                    push_char(&mut text, '=');
                }
                text.append(comp.as_str());
                if !jmp.as_str().is_empty() {
                    push_char(&mut text, ';');
                    text.append(jmp.as_str());
                }
            },
            InstructionVariant::Symbol { symbol, is_variable } => {
                if *is_variable {
                    push_char(&mut text, '@');
                    text.append(symbol.as_str());
                } else {
                    push_char(&mut text, '(');
                    text.append(symbol.as_str());
                    push_char(&mut text, ')');
                }
            },
        }
        assert(text@ =~= source_text(self@.variant));
        text
    }
}

/// Counts the instructions of a program while it reads its lines.
pub struct Parser {
    pub instructions_count: u16,
}

impl Parser {
    /// A parser that has counted no instruction.
    pub fn new() -> (r: Self)
        ensures
            r.instructions_count == 0,
    {
        Self { instructions_count: 0 }
    }

    /// Reads one line. An instruction gets the count so far as its number
    /// and is counted; a label gets the count so far and is not counted.
    /// On an error the count stays as it was.
    pub fn parse(&mut self, instruction: String) -> (r: Result<Instruction, AssemblyError>)
        ensures
            match parse_step(old(self).instructions_count, instruction@) {
                Ok((parsed, count)) => {
                    &&& r is Ok
                    &&& r->Ok_0@ == parsed
                    &&& final(self).instructions_count == count
                },
                Err(e) => {
                    &&& r is Err
                    &&& r->Err_0 == e
                    &&& final(self).instructions_count == old(self).instructions_count
                },
            },
    {
        let raw = chars_of(instruction.as_str());
        let line = strip_whitespace(raw.as_slice());
        let s = line.as_slice();
        if s.len() == 0 {
            return Err(AssemblyError::EmptyInstruction);
        }
        let first = s[0];
        if first == '(' {
            let variant = parse_label(s);
            return Ok(Instruction { variant, line_number: self.instructions_count });
        }
        let variant = if first == '@' {
            assert(s@.drop_first() == s@.subrange(1, s@.len() as int));
            parse_address_field(slice_subrange(s, 1, s.len()))
        } else {
            match parse_compute_fields(s) {
                Ok(v) => v,
                Err(e) => {
                    return Err(e);
                },
            }
        };
        if self.instructions_count == u16::MAX {
            return Err(AssemblyError::AddressSpaceExhausted);
        }
        let line_number = self.instructions_count;
        self.instructions_count = line_number + 1;
        Ok(Instruction { variant, line_number })
    }

    /// Starts counting from zero again.
    pub fn clear(&mut self)
        ensures
            final(self).instructions_count == 0,
    {
        self.instructions_count = 0;
    }
}

/// A line is refused as empty exactly where nothing is left of it once
/// the white space around it is trimmed off.
pub proof fn lemma_empty_instruction(line: Seq<char>)
    ensures
        parse_line(line) == Err::<VariantView, AssemblyError>(AssemblyError::EmptyInstruction)
            <==> trim(line).len() == 0,
{
    lemma_blank(line);
    let s = without_whitespace(line);
    if s.len() > 0 && s.first() != '@' && s.first() != '(' {
        assert(parse_line(line) == parse_compute(s));
    }
}

/// A sequence is its pieces with the separator between them, where it
/// splits into one piece or into two.
proof fn lemma_split_joins(s: Seq<char>, sep: char)
    ensures
        split(s, sep).len() == 1 ==> s == split(s, sep).first(),
        split(s, sep).len() == 2 ==> s == split(s, sep).first() + seq![sep] + split(s, sep).last(),
{
    lemma_split(s, sep);
    lemma_first_index(s, sep);
    if split(s, sep).len() == 2 {
        let i = first_index(s, sep);
        assert(s =~= s.take(i) + seq![sep] + s.skip(i + 1));
    }
}

/// Round trip: the source text of a parsed line is the line without its
/// white space, exactly where that is in normal form.
pub proof fn lemma_round_trip(line: Seq<char>)
    requires
        parse_line(line) is Ok,
    ensures
        source_text(parse_line(line)->Ok_0) == without_whitespace(line) <==> is_normal_form(
            without_whitespace(line),
        ),
{
    let s = without_whitespace(line);
    let text = source_text(parse_line(line)->Ok_0);
    if s.first() == '@' {
        assert(text =~= s);
    } else if s.first() == '(' {
        let inner = s.drop_first();
        if inner.len() > 0 && inner.last() == ')' {
            assert(text =~= s);
        } else {
            assert(text.len() == s.len() + 1);
        }
    } else {
        let parts = split(s, '=');
        let clause = parts.last();
        let pieces = split(clause, ';');
        lemma_split_joins(s, '=');
        lemma_split_joins(clause, ';');
        lemma_split(s, '=');
        lemma_split(clause, ';');
        let dest = if parts.len() == 2 { parts.first() } else { Seq::<char>::empty() };
        let comp = pieces.first();
        let jmp = if pieces.len() == 2 { pieces.last() } else { Seq::<char>::empty() };
        let head = if dest.len() > 0 { dest + seq!['='] } else { Seq::<char>::empty() };
        let tail = if jmp.len() > 0 { seq![';'] + jmp } else { Seq::<char>::empty() };
        assert(text == head + comp + tail);
        if is_normal_form(s) {
            assert(text =~= s);
        } else {
            assert(text.len() < s.len());
        }
    }
}

/// A parser counts the instructions among the lines that it reads, so the
/// number that it gives an instruction is the number of instructions
/// before it.
pub proof fn lemma_count_after(count: u16, lines: Seq<Seq<char>>)
    requires
        count_after(count, lines) is Ok,
    ensures
        count_after(count, lines)->Ok_0 == count + instruction_count(lines),
    decreases lines.len(),
{
    if lines.len() > 0 {
        let next = parse_step(count, lines.first())->Ok_0.1;
        lemma_count_after(next, lines.drop_first());
    }
}

/// A parser that reads `lines` one after the other gives line `j` the
/// number of instructions before it as its number, counted on from where
/// the parser started.
pub proof fn lemma_line_number(count: u16, lines: Seq<Seq<char>>, j: int)
    requires
        count_after(count, lines) is Ok,
        0 <= j < lines.len(),
    ensures
        count_after(count, lines.take(j)) == Ok::<u16, AssemblyError>(
            (count + instruction_count(lines.take(j))) as u16,
        ),
        count + instruction_count(lines.take(j)) <= u16::MAX,
        parse_step((count + instruction_count(lines.take(j))) as u16, lines[j]) is Ok,
        parse_step(
            (count + instruction_count(lines.take(j))) as u16,
            lines[j],
        )->Ok_0.0.line_number == count + instruction_count(lines.take(j)),
    decreases lines.len(),
{
    let next = parse_step(count, lines.first())->Ok_0.1;
    let rest = lines.drop_first();
    if j == 0 {
        assert(lines.take(0).len() == 0);
    } else {
        lemma_line_number(next, rest, j - 1);
        assert(rest[j - 1] == lines[j]);
        assert(lines.take(j).first() == lines.first());
        assert(lines.take(j).drop_first() == rest.take(j - 1));
    }
}

/// The instructions of two runs of lines are those of the one and those
/// of the other.
pub proof fn lemma_instruction_count_add(a: Seq<Seq<char>>, b: Seq<Seq<char>>)
    ensures
        instruction_count(a + b) == instruction_count(a) + instruction_count(b),
    decreases a.len(),
{
    if a.len() == 0 {
        assert(a + b == b);
    } else {
        lemma_instruction_count_add(a.drop_first(), b);
        assert((a + b).drop_first() == a.drop_first() + b);
    }
}

/// Lines of which none is an instruction count for nothing.
pub proof fn lemma_instruction_count_none(lines: Seq<Seq<char>>)
    requires
        forall|k: int| 0 <= k < lines.len() ==> !is_instruction(#[trigger] lines[k]),
    ensures
        instruction_count(lines) == 0,
    decreases lines.len(),
{
    if lines.len() > 0 {
        let rest = lines.drop_first();
        assert forall|k: int| 0 <= k < rest.len() implies !is_instruction(#[trigger] rest[k]) by {
            assert(rest[k] == lines[k + 1]);
        }
        lemma_instruction_count_none(rest);
    }
}

} // verus!
