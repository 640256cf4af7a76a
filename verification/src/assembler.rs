//! The two passes over a program: the first binds the labels, the second
//! allocates the variables and writes one word for each instruction.

use vstd::prelude::*;
use vstd::slice::slice_subrange;
use crate::error::AssemblyError;
use crate::parser::{
    count_after, instruction_count, is_instruction, lemma_count_after, lemma_empty_instruction,
    lemma_instruction_count_add, lemma_instruction_count_none, lemma_line_number, numeral_value,
    parse_line, parse_numeral, parse_step, Instruction, InstructionVariant, Parser, VariantView,
};
use crate::symbol_handler::{
    lemma_allocation_is_gapless, newly_seen, SymbolTable, SymbolTableView,
};
use crate::text::{
    chars_of, cleaned, comment_start, find_char, find_comment, is_whitespace, lemma_blank,
    lemma_comment_start_bounds, lemma_first_index, lemma_split_first, lemma_split_last,
    push_char, split, string_of, trim_bounds,
};
use crate::translator::{
    address_bits, compute_bits, is_binary_word, lemma_address_bits, lemma_compute_bits,
    translate_a_instruction, translate_c_instruction,
};

verus! {

/// The name of a file without its directories and without what follows
/// its first dot.
pub open spec fn file_stem(path: Seq<char>) -> Seq<char> {
    split(split(path, '/').last(), '.').first()
}

/// What the first pass makes of one line: the line is counted as the
/// parser counts it, and a label is added to the table at its position.
pub open spec fn label_step(count: u16, table: SymbolTableView, line: Seq<char>) -> Result<
    (u16, SymbolTableView),
    AssemblyError,
> {
    match parse_step(count, line) {
        Err(e) => Err(e),
        Ok((parsed, next)) => match parsed.variant {
            VariantView::Symbol { symbol, is_variable: false } => match table.add(
                symbol,
                parsed.line_number,
                false,
            ) {
                Ok(bound) => Ok((next, bound)),
                Err(e) => Err(e),
            },
            _ => Ok((next, table)),
        },
    }
}

/// The first pass over `lines`, from a parser that has counted `count`
/// instructions and from `table`: the count and the table after it.
pub open spec fn collect_labels(
    count: u16,
    table: SymbolTableView,
    lines: Seq<Seq<char>>,
) -> Result<(u16, SymbolTableView), AssemblyError>
    decreases lines.len(),
{
    if lines.len() == 0 {
        Ok((count, table))
    } else {
        match label_step(count, table, lines.first()) {
            Err(e) => Err(e),
            Ok((next, bound)) => collect_labels(next, bound, lines.drop_first()),
        }
    }
}

/// What the second pass makes of one instruction: the table afterwards
/// and the word written, if any. A label writes nothing. A variable is
/// added at the next free address unless the table holds its name, and
/// writes the address that the table gives it. An address instruction
/// writes its number, which must fit in 16 bits. A compute instruction
/// writes its three fields.
pub open spec fn encode(table: SymbolTableView, v: VariantView) -> Result<
    (SymbolTableView, Option<Seq<char>>),
    AssemblyError,
> {
    match v {
        VariantView::Symbol { symbol, is_variable } => if !is_variable {
            Ok((table, None))
        } else {
            match table.allocate(symbol) {
                Ok(bound) => Ok((bound, Some(address_bits(bound.symbols[symbol])))),
                Err(e) => Err(e),
            }
        },
        VariantView::A(literal) => match numeral_value(literal) {
            Some(n) if n <= u16::MAX => Ok((table, Some(address_bits(n as u16)))),
            _ => Err(AssemblyError::InvalidLiteral),
        },
        VariantView::C { comp, dest, jmp } => match compute_bits(dest, comp, jmp) {
            Some(word) => Ok((table, Some(word))),
            None => Err(AssemblyError::InvalidMnemonic),
        },
    }
}

/// `words` with `word` after them, where there is one.
pub open spec fn with_word(words: Seq<Seq<char>>, word: Option<Seq<char>>) -> Seq<Seq<char>> {
    match word {
        Some(w) => words.push(w),
        None => words,
    }
}

/// The second pass over `lines`, from `table` and after `words` have been
/// written: the table and the words after it.
pub open spec fn generate(
    table: SymbolTableView,
    words: Seq<Seq<char>>,
    lines: Seq<Seq<char>>,
) -> Result<(SymbolTableView, Seq<Seq<char>>), AssemblyError>
    decreases lines.len(),
{
    if lines.len() == 0 {
        Ok((table, words))
    } else {
        match parse_line(lines.first()) {
            Err(e) => Err(e),
            Ok(v) => match encode(table, v) {
                Err(e) => Err(e),
                Ok((bound, word)) => generate(bound, with_word(words, word), lines.drop_first()),
            },
        }
    }
}

/// The words one per line: a line feed between two of them, none at the end.
pub open spec fn join_lines(words: Seq<Seq<char>>) -> Seq<char>
    decreases words.len(),
{
    if words.len() == 0 {
        Seq::empty()
    } else if words.len() == 1 {
        words.first()
    } else {
        join_lines(words.drop_last()) + seq!['\n'] + words.last()
    }
}

/// The binary text of the program `lines`: the first pass binds the
/// labels in a new table, the second writes the words. An error of the
/// first pass, on whatever line, comes before any of the second.
pub open spec fn machine_code(lines: Seq<Seq<char>>) -> Result<Seq<char>, AssemblyError> {
    match collect_labels(0, SymbolTableView::initial(), lines) {
        Err(e) => Err(e),
        Ok((_, labels)) => match generate(labels, Seq::empty(), lines) {
            Err(e) => Err(e),
            Ok((_, words)) => Ok(join_lines(words)),
        },
    }
}

/// Whether `line` declares the label `name`.
pub open spec fn declares(line: Seq<char>, name: Seq<char>) -> bool {
    parse_line(line) == Ok::<VariantView, AssemblyError>(
        VariantView::Symbol { symbol: name, is_variable: false },
    )
}

/// The names of the variables on `lines`, in their order, each as often
/// as it is written.
pub open spec fn variable_names(lines: Seq<Seq<char>>) -> Seq<Seq<char>>
    decreases lines.len(),
{
    if lines.len() == 0 {
        Seq::empty()
    } else {
        match parse_line(lines.first()) {
            Ok(VariantView::Symbol { symbol, is_variable: true }) => seq![symbol] + variable_names(
                lines.drop_first(),
            ),
            _ => variable_names(lines.drop_first()),
        }
    }
}

/// The word of an instruction under a table that binds its symbol.
pub open spec fn word_of(table: SymbolTableView, v: VariantView) -> Seq<char> {
    match v {
        VariantView::Symbol { symbol, .. } => address_bits(table.symbols[symbol]),
        VariantView::A(literal) => address_bits(numeral_value(literal)->Some_0 as u16),
        VariantView::C { comp, dest, jmp } => compute_bits(dest, comp, jmp)->Some_0,
    }
}

/// What a source line says: the line up to its comment, without the
/// white space around it. `None` for a line that says nothing.
pub fn clean_line(line: &str) -> (r: Option<&str>)
    ensures
        match cleaned(line@) {
            Some(code) => r is Some && r->Some_0@ == code,
            None => r is None,
        },
{
    let chars = chars_of(line);
    let end = find_comment(chars.as_slice());
    proof {
        lemma_comment_start_bounds(line@);
    }
    let code = slice_subrange(chars.as_slice(), 0, end);
    let (from, to) = trim_bounds(code);
    if from == to {
        None
    } else {
        assert(code@.subrange(from as int, to as int) == line@.subrange(from as int, to as int));
        Some(line.substring_char(from, to))
    }
}

/// What the lines of a source file say: the lines that say something,
/// each without its comment and the white space around it.
pub fn clean_lines(lines: &Vec<String>) -> (r: Vec<String>)
    ensures
        r.deep_view() == lines.deep_view().filter_map(|line: Seq<char>| cleaned(line)),
{
    let ghost source = lines.deep_view();
    let mut kept: Vec<String> = Vec::new();
    let mut i: usize = 0;
    assert(source.take(0).filter_map(|line: Seq<char>| cleaned(line)) =~= Seq::empty());
    while i < lines.len()
        invariant
            i <= lines.len(),
            source == lines.deep_view(),
            kept.deep_view() == source.take(i as int).filter_map(|line: Seq<char>| cleaned(line)),
        decreases lines.len() - i,
    {
        proof {
            source.lemma_filter_map_take_succ(|line: Seq<char>| cleaned(line), i as int);
        }
        let ghost before = kept.deep_view();
        match clean_line(lines[i].as_str()) {
            Some(code) => {
                let owned = String::from_str(code);
                kept.push(owned);
                assert(kept.deep_view() =~= before.push(owned@));
            },
            None => {},
        }
        i += 1;
    }
    assert(source.take(lines.len() as int) == source);
    kept
}

/// The name of the file at `file_name_or_path`, without its directories
/// and without what follows its first dot.
pub fn extract_file_name(file_name_or_path: &str) -> (r: String)
    ensures
        r@ == file_stem(file_name_or_path@),
{
    let chars = chars_of(file_name_or_path);
    let path = chars.as_slice();
    let mut start: usize = path.len();
    while start > 0 && path[start - 1] != '/'
        invariant
            start <= path.len(),
            forall|j: int| start <= j < path@.len() ==> path@[j] != '/',
        decreases start,
    {
        start -= 1;
    }
    let name = slice_subrange(path, start, path.len());
    let dot = find_char(name, '.');
    proof {
        lemma_split_last(path@, '/', start as int);
        lemma_split_first(name@, '.');
        lemma_first_index(name@, '.');
    }
    string_of(slice_subrange(name, 0, dot))
}

/// The second pass on one instruction: brings the table up to date and
/// returns the word to write, if the instruction writes one.
pub fn encode_instruction(table: &mut SymbolTable, instruction: &Instruction) -> (r: Result<
    Option<String>,
    AssemblyError,
>)
    ensures
        match encode(old(table)@, instruction@.variant) {
            Ok((bound, word)) => {
                &&& final(table)@ == bound
                &&& r is Ok
                &&& match word {
                    Some(w) => r->Ok_0 is Some && r->Ok_0->Some_0@ == w,
                    None => r->Ok_0 is None,
                }
            },
            Err(e) => r is Err && r->Err_0 == e && final(table)@ == old(table)@,
        },
{
    match &instruction.variant {
        InstructionVariant::Symbol { symbol, is_variable } => {
            if !*is_variable {
                return Ok(None);
            }
            let address = table.get_next_free_address();
            match table.add_symbol(symbol.as_str(), address, true) {
                Ok(()) => {},
                Err(e) => {
                    return Err(e);
                },
            }
            match table.get_memory_address(symbol.as_str()) {
                Ok(bound) => Ok(Some(translate_a_instruction(&bound))),
                Err(e) => Err(e),
            }
        },
        InstructionVariant::A(literal) => {
            let digits = chars_of(literal.as_str());
            match parse_numeral(digits.as_slice(), 65535) {
                Some(n) => {
                    let address: u16 = n as u16;
                    Ok(Some(translate_a_instruction(&address)))
                },
                None => Err(AssemblyError::InvalidLiteral),
            }
        },
        InstructionVariant::C { comp, dest, jmp } => {
            match translate_c_instruction(dest.as_str(), comp.as_str(), jmp.as_str()) {
                Ok(word) => Ok(Some(word)),
                Err(e) => Err(e),
            }
        },
    }
}

/// Assembles a program, given as its lines without comments and without
/// blank lines, into its binary text: one word of 16 binary digits for
/// each instruction, in the order of the source, a line feed between two
/// words and none at the end.
pub fn assemble_lines(lines: &Vec<String>) -> (r: Result<String, AssemblyError>)
    ensures
        match machine_code(lines.deep_view()) {
            Ok(text) => r is Ok && r->Ok_0@ == text,
            Err(e) => r is Err && r->Err_0 == e,
        },
{
    let ghost source = lines.deep_view();
    let mut parser = Parser::new();
    let mut symbol_table = SymbolTable::new();
    let mut i: usize = 0;
    assert(source.skip(0) == source);
    while i < lines.len()
        invariant
            i <= lines.len(),
            source == lines.deep_view(),
            collect_labels(0, SymbolTableView::initial(), source) == collect_labels(
                parser.instructions_count,
                symbol_table@,
                source.skip(i as int),
            ),
        decreases lines.len() - i,
    {
        proof {
            assert(source.skip(i as int).first() == lines[i as int]@);
            assert(source.skip(i as int).drop_first() == source.skip(i + 1));
        }
        match parser.parse(lines[i].clone()) {
            Err(e) => {
                return Err(e);
            },
            Ok(parsed) => {
                let position = parsed.line_number;
                match parsed.variant {
                    InstructionVariant::Symbol { symbol, is_variable } => {
                        if !is_variable {
                            match symbol_table.add_symbol(symbol.as_str(), position, false) {
                                Ok(()) => {},
                                Err(e) => {
                                    return Err(e);
                                },
                            }
                        }
                    },
                    _ => {},
                }
            },
        }
        i += 1;
    }
    let ghost labels = symbol_table@;
    let ghost total = parser.instructions_count;
    parser.clear();
    let ghost mut shadow = SymbolTableView::initial();
    let ghost mut words = Seq::<Seq<char>>::empty();
    let mut output = String::new();
    let mut written = false;
    i = 0;
    while i < lines.len()
        invariant
            i <= lines.len(),
            source == lines.deep_view(),
            collect_labels(0, SymbolTableView::initial(), source) == Ok::<
                (u16, SymbolTableView),
                AssemblyError,
            >((total, labels)),
            collect_labels(parser.instructions_count, shadow, source.skip(i as int)) is Ok,
            generate(labels, Seq::empty(), source) == generate(
                symbol_table@,
                words,
                source.skip(i as int),
            ),
            output@ == join_lines(words),
            written == (words.len() > 0),
        decreases lines.len() - i,
    {
        proof {
            assert(source.skip(i as int).first() == lines[i as int]@);
            assert(source.skip(i as int).drop_first() == source.skip(i + 1));
            shadow = label_step(parser.instructions_count, shadow, lines[i as int]@)->Ok_0.1;
        }
        let parsed = match parser.parse(lines[i].clone()) {
            Ok(parsed) => parsed,
            Err(e) => {
                return Err(e);
            },
        };
        match encode_instruction(&mut symbol_table, &parsed) {
            Err(e) => {
                return Err(e);
            },
            Ok(None) => {},
            Ok(Some(word)) => {
                if written {
                    push_char(&mut output, '\n');
                }
                output.append(word.as_str());
                proof {
                    assert(words.push(word@).drop_last() == words);
                    words = words.push(word@);
                    assert(output@ =~= join_lines(words));
                }
                written = true;
            },
        }
        i += 1;
    }
    Ok(output)
}

/// What is left of a line when it is cleaned is never refused as empty.
pub proof fn lemma_cleaned_is_not_empty(line: Seq<char>)
    requires
        cleaned(line) is Some,
    ensures
        parse_line(cleaned(line)->Some_0) != Err::<VariantView, AssemblyError>(
            AssemblyError::EmptyInstruction,
        ),
{
    let code = cleaned(line)->Some_0;
    lemma_blank(line.take(comment_start(line)));
    lemma_blank(code);
    lemma_empty_instruction(code);
    assert(!is_whitespace(code[0]));
}

/// The first pass counts as the parser counts, takes no address out of
/// use, and leaves every name that the table held at its address.
pub proof fn lemma_collect_labels_keeps(
    count: u16,
    table: SymbolTableView,
    lines: Seq<Seq<char>>,
)
    requires
        collect_labels(count, table, lines) is Ok,
    ensures
        ({
            let (end, labels) = collect_labels(count, table, lines)->Ok_0;
            &&& count_after(count, lines) == Ok::<u16, AssemblyError>(end)
            &&& labels.next_free_address == table.next_free_address
            &&& forall|name: Seq<char>| #[trigger]
                table.contains(name) ==> labels.resolve(name) == table.resolve(name)
        }),
    decreases lines.len(),
{
    if lines.len() > 0 {
        let (next, bound) = label_step(count, table, lines.first())->Ok_0;
        lemma_collect_labels_keeps(next, bound, lines.drop_first());
        let (end, labels) = collect_labels(count, table, lines)->Ok_0;
        assert forall|name: Seq<char>| #[trigger] table.contains(name) implies labels.resolve(name)
            == table.resolve(name) by {
            assert(bound.contains(name));
        }
    }
}

/// After the first pass, a label that is declared for the first time on
/// line `i`, and is no name that the table held, has the count with which
/// the parser came to that line as its address.
proof fn lemma_label_bound(
    count: u16,
    table: SymbolTableView,
    lines: Seq<Seq<char>>,
    i: int,
    name: Seq<char>,
)
    requires
        collect_labels(count, table, lines) is Ok,
        0 <= i < lines.len(),
        declares(lines[i], name),
        !table.contains(name),
        forall|k: int| 0 <= k < i ==> !declares(#[trigger] lines[k], name),
    ensures
        count_after(count, lines.take(i)) is Ok,
        collect_labels(count, table, lines)->Ok_0.1.resolve(name) == count_after(
            count,
            lines.take(i),
        ),
    decreases lines.len(),
{
    let (next, bound) = label_step(count, table, lines.first())->Ok_0;
    let rest = lines.drop_first();
    if i == 0 {
        lemma_collect_labels_keeps(next, bound, rest);
        assert(bound.contains(name));
        assert(lines.take(0).len() == 0);
    } else {
        assert(!declares(lines[0], name));
        assert(rest[i - 1] == lines[i]);
        assert forall|k: int| 0 <= k < i - 1 implies !declares(#[trigger] rest[k], name) by {
            assert(rest[k] == lines[k + 1]);
        }
        lemma_label_bound(next, bound, rest, i - 1, name);
        assert(lines.take(i).first() == lines.first());
        assert(lines.take(i).drop_first() == rest.take(i - 1));
    }
}

/// A label stands for the position of the instruction that follows it,
/// however many labels stand between the two. Let the first pass succeed
/// on `lines`; let line `i` declare `name`, which is not predefined and
/// which no line before declares; and let no line from `i` up to `j` be
/// an instruction, so that line `j` is the next instruction, or the end
/// of the program. Then the address of `name` is the number of
/// instructions before line `j`, which is the count with which the
/// parser comes to line `j`, and so the number that it gives it.
pub proof fn lemma_label_is_next_position(lines: Seq<Seq<char>>, i: int, j: int, name: Seq<char>)
    requires
        collect_labels(0, SymbolTableView::initial(), lines) is Ok,
        0 <= i < j <= lines.len(),
        declares(lines[i], name),
        !SymbolTableView::initial().contains(name),
        forall|k: int| 0 <= k < i ==> !declares(#[trigger] lines[k], name),
        forall|k: int| i <= k < j ==> !is_instruction(#[trigger] lines[k]),
    ensures
        instruction_count(lines.take(j)) <= u16::MAX,
        collect_labels(0, SymbolTableView::initial(), lines)->Ok_0.1.resolve(name) == Ok::<
            u16,
            AssemblyError,
        >(instruction_count(lines.take(j)) as u16),
        collect_labels(0, SymbolTableView::initial(), lines)->Ok_0.1.resolve(name) == count_after(
            0,
            lines.take(j),
        ),
{
    lemma_label_bound(0, SymbolTableView::initial(), lines, i, name);
    lemma_count_after(0, lines.take(i));
    let between = lines.subrange(i, j);
    assert forall|k: int| 0 <= k < between.len() implies !is_instruction(#[trigger] between[k]) by {
        assert(between[k] == lines[i + k]);
    }
    lemma_instruction_count_none(between);
    lemma_instruction_count_add(lines.take(i), between);
    assert(lines.take(i) + between == lines.take(j));
    lemma_collect_labels_keeps(0, SymbolTableView::initial(), lines);
    if j < lines.len() {
        lemma_line_number(0, lines, j);
    } else {
        assert(lines.take(j) == lines);
        lemma_count_after(0, lines);
    }
}

/// The second pass changes the table by allocating the variables of the
/// program in their order, and by nothing else. It writes one word for
/// each instruction, and each word is 16 binary digits.
pub proof fn lemma_generate(table: SymbolTableView, words: Seq<Seq<char>>, lines: Seq<Seq<char>>)
    requires
        generate(table, words, lines) is Ok,
    ensures
        ({
            let (bound, written) = generate(table, words, lines)->Ok_0;
            &&& table.allocate_all(variable_names(lines)) == Ok::<SymbolTableView, AssemblyError>(
                bound,
            )
            &&& written.len() == words.len() + instruction_count(lines)
            &&& written.take(words.len() as int) == words
            &&& forall|k: int| words.len() <= k < written.len() ==> is_binary_word(written[k])
        }),
    decreases lines.len(),
{
    if lines.len() == 0 {
        assert(words.take(words.len() as int) == words);
    } else {
        let v = parse_line(lines.first())->Ok_0;
        let (next, word) = encode(table, v)->Ok_0;
        let more = with_word(words, word);
        lemma_generate(next, more, lines.drop_first());
        let (bound, written) = generate(table, words, lines)->Ok_0;
        assert(written.take(words.len() as int) == written.take(more.len() as int).take(
            words.len() as int,
        ));
        match v {
            VariantView::Symbol { symbol, is_variable } => {
                if is_variable {
                    lemma_address_bits(next.symbols[symbol]);
                    let names = variable_names(lines);
                    assert(names.first() == symbol);
                    assert(names.drop_first() == variable_names(lines.drop_first()));
                }
            },
            VariantView::A(literal) => {
                lemma_address_bits(numeral_value(literal)->Some_0 as u16);
            },
            VariantView::C { comp, dest, jmp } => {
                lemma_compute_bits(dest, comp, jmp);
            },
        }
        assert forall|k: int| words.len() <= k < written.len() implies is_binary_word(
            written[k],
        ) by {
            if k < more.len() {
                assert(written[k] == written.take(more.len() as int)[k]);
            }
        }
    }
}

/// Variables get the addresses from 16 on, one after the other and
/// without a gap. Of the names that are new when the second pass sees
/// them, which are neither predefined nor labels, the first has 16 as its
/// address, the second 17, and so on. A name that was bound before keeps
/// its address.
pub proof fn lemma_variables_from_16(lines: Seq<Seq<char>>)
    requires
        machine_code(lines) is Ok,
    ensures
        ({
            let labels = collect_labels(0, SymbolTableView::initial(), lines)->Ok_0.1;
            let bound = generate(labels, Seq::empty(), lines)->Ok_0.0;
            let fresh = newly_seen(labels.symbols.dom(), variable_names(lines));
            &&& forall|k: int|
                0 <= k < fresh.len() ==> bound.resolve(#[trigger] fresh[k]) == Ok::<
                    u16,
                    AssemblyError,
                >((16 + k) as u16)
            &&& forall|name: Seq<char>| #[trigger]
                labels.contains(name) ==> bound.resolve(name) == labels.resolve(name)
            &&& bound.next_free_address == 16 + fresh.len()
        }),
{
    let labels = collect_labels(0, SymbolTableView::initial(), lines)->Ok_0.1;
    lemma_collect_labels_keeps(0, SymbolTableView::initial(), lines);
    lemma_generate(labels, Seq::empty(), lines);
    lemma_allocation_is_gapless(labels, variable_names(lines));
}

/// The second pass writes, for the instruction on line `i`, the word of
/// that instruction under the table with which the pass ends, and writes
/// it after the words of the instructions before it.
proof fn lemma_generate_word(
    table: SymbolTableView,
    words: Seq<Seq<char>>,
    lines: Seq<Seq<char>>,
    i: int,
)
    requires
        generate(table, words, lines) is Ok,
        0 <= i < lines.len(),
        is_instruction(lines[i]),
    ensures
        ({
            let (bound, written) = generate(table, words, lines)->Ok_0;
            let k = words.len() + instruction_count(lines.take(i));
            &&& k < written.len()
            &&& written[k as int] == word_of(bound, parse_line(lines[i])->Ok_0)
        }),
    decreases lines.len(),
{
    let v = parse_line(lines.first())->Ok_0;
    let (next, word) = encode(table, v)->Ok_0;
    let more = with_word(words, word);
    let rest = lines.drop_first();
    let (bound, written) = generate(table, words, lines)->Ok_0;
    lemma_generate(next, more, rest);
    if i == 0 {
        assert(lines.take(0).len() == 0);
        assert(written[words.len() as int] == written.take(more.len() as int)[words.len() as int]);
        if let VariantView::Symbol { symbol, is_variable } = v {
            lemma_allocation_is_gapless(next, variable_names(rest));
            assert(next.contains(symbol));
        }
    } else {
        lemma_generate_word(next, more, rest, i - 1);
        assert(rest[i - 1] == lines[i]);
        assert(lines.take(i).first() == lines.first());
        assert(lines.take(i).drop_first() == rest.take(i - 1));
    }
}

/// The binary text holds one word for each instruction, in the order of
/// the source: the word of an instruction stands where the number of
/// instructions before it says, and it is the word of that instruction
/// with its symbol read from the table as it is in the end. So every
/// reference to a name gives the same address, before the name's
/// declaration as after it.
pub proof fn lemma_word_of_line(lines: Seq<Seq<char>>, i: int)
    requires
        machine_code(lines) is Ok,
        0 <= i < lines.len(),
        is_instruction(lines[i]),
    ensures
        ({
            let labels = collect_labels(0, SymbolTableView::initial(), lines)->Ok_0.1;
            let (bound, words) = generate(labels, Seq::empty(), lines)->Ok_0;
            let k = instruction_count(lines.take(i));
            &&& machine_code(lines) == Ok::<Seq<char>, AssemblyError>(join_lines(words))
            &&& words.len() == instruction_count(lines)
            &&& k < words.len()
            &&& words[k as int] == word_of(bound, parse_line(lines[i])->Ok_0)
        }),
{
    let labels = collect_labels(0, SymbolTableView::initial(), lines)->Ok_0.1;
    lemma_generate(labels, Seq::empty(), lines);
    lemma_generate_word(labels, Seq::empty(), lines, i);
}

/// The layout of the binary text: 17 characters for each word but the
/// last, which has 16, so that line feeds stand at every 17th place and
/// nowhere else, and none at the end.
pub proof fn lemma_join_lines(words: Seq<Seq<char>>)
    requires
        forall|k: int| 0 <= k < words.len() ==> is_binary_word(#[trigger] words[k]),
    ensures
        join_lines(words).len() == if words.len() == 0 {
            0
        } else {
            17 * words.len() - 1
        },
        forall|i: int|
            0 <= i < join_lines(words).len() ==> (#[trigger] join_lines(words)[i] == '\n' <==> i
                % 17 == 16),
        forall|k: int|
            0 <= k < words.len() ==> join_lines(words).subrange(17 * k, 17 * k + 16)
                == #[trigger] words[k],
    decreases words.len(),
{
    let text = join_lines(words);
    if words.len() == 1 {
        assert(is_binary_word(words[0]));
        assert(text.subrange(0, 16) == words[0]);
    } else if words.len() > 1 {
        let before = words.drop_last();
        let word = words.last();
        assert forall|k: int| 0 <= k < before.len() implies is_binary_word(
            #[trigger] before[k],
        ) by {
            assert(before[k] == words[k]);
        }
        lemma_join_lines(before);
        let head = join_lines(before);
        assert(is_binary_word(words[words.len() - 1]));
        assert(text == head + seq!['\n'] + word);
        assert forall|i: int| 0 <= i < text.len() implies (#[trigger] text[i] == '\n' <==> i % 17
            == 16) by {
            if i < head.len() {
                assert(text[i] == head[i]);
            } else if i > head.len() {
                assert(text[i] == word[i - head.len() - 1]);
            }
        }
        assert forall|k: int| 0 <= k < words.len() implies text.subrange(17 * k, 17 * k + 16)
            == #[trigger] words[k] by {
            if k < before.len() {
                assert(text.subrange(17 * k, 17 * k + 16) == head.subrange(17 * k, 17 * k + 16));
                assert(before[k] == words[k]);
            } else {
                assert(text.subrange(17 * k, 17 * k + 16) == word);
            }
        }
    }
}

/// The first pass fails only on a line that the parser refuses.
proof fn lemma_collect_labels_errors(count: u16, table: SymbolTableView, lines: Seq<Seq<char>>)
    ensures
        collect_labels(count, table, lines) matches Err(e) ==> e
            == AssemblyError::EmptyInstruction || e == AssemblyError::MalformedInstruction || e
            == AssemblyError::AddressSpaceExhausted,
    decreases lines.len(),
{
    if lines.len() > 0 {
        if let Ok((next, bound)) = label_step(count, table, lines.first()) {
            lemma_collect_labels_errors(next, bound, lines.drop_first());
        }
    }
}

/// The second pass never fails for a symbol without an address.
proof fn lemma_generate_errors(
    table: SymbolTableView,
    words: Seq<Seq<char>>,
    lines: Seq<Seq<char>>,
)
    ensures
        generate(table, words, lines) matches Err(e) ==> e != AssemblyError::UnboundSymbol,
    decreases lines.len(),
{
    if lines.len() > 0 {
        if let Ok(v) = parse_line(lines.first()) {
            if let Ok((bound, word)) = encode(table, v) {
                lemma_generate_errors(bound, with_word(words, word), lines.drop_first());
            }
        }
    }
}

/// Assembling never fails for a symbol without an address: by the time
/// that a name is looked up, it is bound.
pub proof fn lemma_no_unbound_symbol(lines: Seq<Seq<char>>)
    ensures
        machine_code(lines) != Err::<Seq<char>, AssemblyError>(AssemblyError::UnboundSymbol),
{
    lemma_collect_labels_errors(0, SymbolTableView::initial(), lines);
    if let Ok((_, labels)) = collect_labels(0, SymbolTableView::initial(), lines) {
        lemma_generate_errors(labels, Seq::empty(), lines);
    }
}

} // verus!
