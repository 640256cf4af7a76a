//! Turns mnemonics and addresses into the bits of a machine word.

use vstd::prelude::*;
use vstd::arithmetic::div_mod::lemma_div_denominator;
use vstd::arithmetic::power2::{lemma2_to64, lemma_pow2_pos, lemma_pow2_unfold, pow2};
use crate::error::AssemblyError;
use crate::text::{chars_of, is_word, push_char};

verus! {

/// The `width` low binary digits of `n`, the highest first.
pub open spec fn binary(n: nat, width: nat) -> Seq<char>
    decreases width,
{
    if width == 0 {
        Seq::<char>::empty()
    } else {
        binary(n / 2, (width - 1) as nat).push(if n % 2 == 1 { '1' } else { '0' })
    }
}

/// The word of an address instruction: the address in 16 binary digits.
pub open spec fn address_bits(address: u16) -> Seq<char> {
    binary(address as nat, 16)
}

/// The number that the binary digits `bits` write.
pub open spec fn binary_value(bits: Seq<char>) -> nat
    decreases bits.len(),
{
    if bits.len() == 0 {
        0
    } else {
        2 * binary_value(bits.drop_last()) + if bits.last() == '1' { 1nat } else { 0nat }
    }
}

/// Whether `word` is a machine word in text: 16 binary digits.
pub open spec fn is_binary_word(word: Seq<char>) -> bool {
    word.len() == 16 && forall|i: int| 0 <= i < 16 ==> word[i] == '0' || word[i] == '1'
}

/// The six control bits of a computation that is written with `A` alone.
pub open spec fn alu_bits(op: Seq<char>) -> Option<Seq<char>> {
    if op == "0"@ {
        Some("101010"@)
    } else if op == "1"@ {
        Some("111111"@)
    } else if op == "-1"@ {
        Some("111010"@)
    } else if op == "D"@ {
        Some("001100"@)
    } else if op == "A"@ {
        Some("110000"@)
    } else if op == "!D"@ {
        Some("001101"@)
    } else if op == "!A"@ {
        Some("110001"@)
    } else if op == "-D"@ {
        Some("001111"@)
    } else if op == "-A"@ {
        Some("110011"@)
    } else if op == "D+1"@ {
        Some("011111"@)
    } else if op == "A+1"@ {
        Some("110111"@)
    } else if op == "D-1"@ {
        Some("001110"@)
    } else if op == "A-1"@ {
        Some("110010"@)
    } else if op == "D+A"@ {
        Some("000010"@)
    } else if op == "D-A"@ {
        Some("010011"@)
    } else if op == "A-D"@ {
        Some("000111"@)
    } else if op == "D&A"@ {
        Some("000000"@)
    } else if op == "D|A"@ {
        Some("010101"@)
    } else {
        None
    }
}

/// `m` with `A` in the place of each `M`.
pub open spec fn memory_as_address(m: Seq<char>) -> Seq<char> {
    m.map_values(|c: char| if c == 'M' { 'A' } else { c })
}

/// The seven bits of a computation: a first bit that says whether the
/// mnemonic names `M`, then the control bits of the mnemonic read with `A`
/// for `M`. `None` where that is no legal computation.
pub open spec fn comp_bits(m: Seq<char>) -> Option<Seq<char>> {
    match alu_bits(memory_as_address(m)) {
        Some(bits) => Some(seq![if m.contains('M') { '1' } else { '0' }] + bits),
        None => None,
    }
}

/// The three bits of a destination: write to A, to D, to M.
pub open spec fn dest_bits(m: Seq<char>) -> Option<Seq<char>> {
    if m == ""@ {
        Some("000"@)
    } else if m == "M"@ {
        Some("001"@)
    } else if m == "D"@ {
        Some("010"@)
    } else if m == "MD"@ {
        Some("011"@)
    } else if m == "A"@ {
        Some("100"@)
    } else if m == "AM"@ {
        Some("101"@)
    } else if m == "AD"@ {
        Some("110"@)
    } else if m == "AMD"@ {
        Some("111"@)
    } else {
        None
    }
}

/// The three bits of a jump.
pub open spec fn jump_bits(m: Seq<char>) -> Option<Seq<char>> {
    if m == ""@ {
        Some("000"@)
    } else if m == "JGT"@ {
        Some("001"@)
    } else if m == "JEQ"@ {
        Some("010"@)
    } else if m == "JGE"@ {
        Some("011"@)
    } else if m == "JLT"@ {
        Some("100"@)
    } else if m == "JNE"@ {
        Some("101"@)
    } else if m == "JLE"@ {
        Some("110"@)
    } else if m == "JMP"@ {
        Some("111"@)
    } else {
        None
    }
}

/// The word of a compute instruction: `111`, then the bits of the
/// computation, of the destination and of the jump. `None` where one of
/// the three is no legal mnemonic.
pub open spec fn compute_bits(dest: Seq<char>, comp: Seq<char>, jump: Seq<char>) -> Option<
    Seq<char>,
> {
    match (comp_bits(comp), dest_bits(dest), jump_bits(jump)) {
        (Some(c), Some(d), Some(j)) => Some("111"@ + c + d + j),
        _ => None,
    }
}

/// The seven-bit field of a computation mnemonic.
pub fn comp(comp_instruction: &str) -> (r: Result<String, AssemblyError>)
    ensures
        match comp_bits(comp_instruction@) {
            Some(bits) => r is Ok && r->Ok_0@ == bits,
            None => r == Err::<String, AssemblyError>(AssemblyError::InvalidMnemonic),
        },
{
    let chars = chars_of(comp_instruction);
    let mut names_memory = false;
    let mut normalized: Vec<char> = Vec::new();
    let mut i: usize = 0;
    while i < chars.len()
        invariant
            i <= chars.len(),
            normalized@ == memory_as_address(chars@.take(i as int)),
            names_memory == chars@.take(i as int).contains('M'),
        decreases chars.len() - i,
    {
        let c = chars[i];
        proof {
            let head = chars@.take(i as int);
            let next = chars@.take(i + 1);
            assert(next == head.push(c));
            assert(memory_as_address(next) =~= memory_as_address(head).push(
                if c == 'M' { 'A' } else { c },
            ));
            if head.contains('M') {
                let k = choose|k: int| 0 <= k < head.len() && head[k] == 'M';
                assert(next[k] == 'M');
            }
            if c == 'M' {
                assert(next[i as int] == 'M');
            }
            if next.contains('M') {
                let k = choose|k: int| 0 <= k < next.len() && next[k] == 'M';
                if k < i {
                    assert(head[k] == 'M');
                }
            }
        }
        if c == 'M' {
            names_memory = true;
            normalized.push('A');
        } else {
            normalized.push(c);
        }
        i += 1;
    }
    assert(chars@.take(i as int) == chars@);
    let op = normalized.as_slice();
    let bits = if is_word(op, "0") {
        "101010"
    } else if is_word(op, "1") {
        "111111"
    } else if is_word(op, "-1") {
        "111010"
    } else if is_word(op, "D") {
        "001100"
    } else if is_word(op, "A") {
        "110000"
    } else if is_word(op, "!D") {
        "001101"
    } else if is_word(op, "!A") {
        "110001"
    } else if is_word(op, "-D") {
        "001111"
    } else if is_word(op, "-A") {
        "110011"
    } else if is_word(op, "D+1") {
        "011111"
    } else if is_word(op, "A+1") {
        "110111"
    } else if is_word(op, "D-1") {
        "001110"
    } else if is_word(op, "A-1") {
        "110010"
    } else if is_word(op, "D+A") {
        "000010"
    } else if is_word(op, "D-A") {
        "010011"
    } else if is_word(op, "A-D") {
        "000111"
    } else if is_word(op, "D&A") {
        "000000"
    } else if is_word(op, "D|A") {
        "010101"
    } else {
        return Err(AssemblyError::InvalidMnemonic);
    };
    let mut field = String::new();
    push_char(&mut field, if names_memory { '1' } else { '0' });
    field.append(bits);
    assert(field@ =~= seq![if names_memory { '1' } else { '0' }] + bits@);
    Ok(field)
}

/// The three-bit field of a destination mnemonic.
pub fn dest(dest_instruction: &str) -> (r: Result<String, AssemblyError>)
    ensures
        match dest_bits(dest_instruction@) {
            Some(bits) => r is Ok && r->Ok_0@ == bits,
            None => r == Err::<String, AssemblyError>(AssemblyError::InvalidMnemonic),
        },
{
    let chars = chars_of(dest_instruction);
    let m = chars.as_slice();
    let bits = if is_word(m, "") {
        "000"
    } else if is_word(m, "M") {
        "001"
    } else if is_word(m, "D") {
        "010"
    } else if is_word(m, "MD") {
        "011"
    } else if is_word(m, "A") {
        "100"
    } else if is_word(m, "AM") {
        "101"
    } else if is_word(m, "AD") {
        "110"
    } else if is_word(m, "AMD") {
        "111"
    } else {
        return Err(AssemblyError::InvalidMnemonic);
    };
    Ok(String::from_str(bits))
}

/// The three-bit field of a jump mnemonic.
pub fn jmp(jump_instruction: &str) -> (r: Result<String, AssemblyError>)
    ensures
        match jump_bits(jump_instruction@) {
            Some(bits) => r is Ok && r->Ok_0@ == bits,
            None => r == Err::<String, AssemblyError>(AssemblyError::InvalidMnemonic),
        },
{
    let chars = chars_of(jump_instruction);
    let m = chars.as_slice();
    let bits = if is_word(m, "") {
        "000"
    } else if is_word(m, "JGT") {
        "001"
    } else if is_word(m, "JEQ") {
        "010"
    } else if is_word(m, "JGE") {
        "011"
    } else if is_word(m, "JLT") {
        "100"
    } else if is_word(m, "JNE") {
        "101"
    } else if is_word(m, "JLE") {
        "110"
    } else if is_word(m, "JMP") {
        "111"
    } else {
        return Err(AssemblyError::InvalidMnemonic);
    };
    Ok(String::from_str(bits))
}

/// The word of the compute instruction with these three mnemonics.
pub fn translate_c_instruction(
    dest_instruction: &str,
    comp_instruction: &str,
    jump_instruction: &str,
) -> (r: Result<String, AssemblyError>)
    ensures
        match compute_bits(dest_instruction@, comp_instruction@, jump_instruction@) {
            Some(word) => r is Ok && r->Ok_0@ == word && is_binary_word(word),
            None => r == Err::<String, AssemblyError>(AssemblyError::InvalidMnemonic),
        },
{
    proof {
        if compute_bits(dest_instruction@, comp_instruction@, jump_instruction@) is Some {
            lemma_compute_bits(dest_instruction@, comp_instruction@, jump_instruction@);
        }
    }
    let c = match comp(comp_instruction) {
        Ok(bits) => bits,
        Err(e) => {
            return Err(e);
        },
    };
    let d = match dest(dest_instruction) {
        Ok(bits) => bits,
        Err(e) => {
            return Err(e);
        },
    };
    let j = match jmp(jump_instruction) {
        Ok(bits) => bits,
        Err(e) => {
            return Err(e);
        },
    };
    let mut word = String::from_str("111");
    word.append(c.as_str());
    word.append(d.as_str());
    word.append(j.as_str());
    Ok(word)
}

/// The word of the address instruction that loads `a_instruction`.
pub fn translate_a_instruction(a_instruction: &u16) -> (r: String)
    ensures
        r@ == address_bits(*a_instruction),
        is_binary_word(r@),
        *a_instruction < 32768 ==> r@[0] == '0',
{
    proof {
        lemma_address_bits(*a_instruction);
    }
    let n: u32 = *a_instruction as u32;
    let mut word = String::new();
    let mut divisor: u32 = 65536;
    let mut i: u32 = 0;
    proof {
        lemma2_to64();
    }
    while i < 16
        invariant
            i <= 16,
            n < 65536,
            divisor == pow2((16 - i) as nat),
            word@ == binary((n / divisor) as nat, i as nat),
        decreases 16 - i,
    {
        proof {
            lemma_pow2_unfold((16 - i) as nat);
            lemma_pow2_pos((15 - i) as nat);
            lemma_div_denominator(n as int, (divisor / 2) as int, 2);
        }
        divisor = divisor / 2;
        let digit = if (n / divisor) % 2 == 1 { '1' } else { '0' };
        push_char(&mut word, digit);
        i += 1;
    }
    assert(n / divisor == n) by (nonlinear_arith)
        requires
            divisor == 1,
    ;
    word
}

/// `binary` writes as many digits as it is asked for, each `0` or `1`;
/// they write the number back where it is below two to the width, and
/// they start with `0` where it is below half of that.
pub proof fn lemma_binary(n: nat, width: nat)
    ensures
        binary(n, width).len() == width,
        forall|i: int| 0 <= i < width ==> binary(n, width)[i] == '0' || binary(n, width)[i] == '1',
        n < pow2(width) ==> binary_value(binary(n, width)) == n,
        width > 0 && n < pow2((width - 1) as nat) ==> binary(n, width)[0] == '0',
    decreases width,
{
    if width == 0 {
        lemma2_to64();
    } else {
        let rest = binary(n / 2, (width - 1) as nat);
        lemma_binary(n / 2, (width - 1) as nat);
        lemma_pow2_unfold(width);
        assert(binary(n, width).drop_last() == rest);
        if width == 1 {
            lemma2_to64();
        } else {
            lemma_pow2_unfold((width - 1) as nat);
        }
    }
}

/// The word of an address instruction is 16 binary digits that write the
/// address, the first of them `0` for an address below 32768.
pub proof fn lemma_address_bits(address: u16)
    ensures
        is_binary_word(address_bits(address)),
        binary_value(address_bits(address)) == address,
        address < 32768 ==> address_bits(address)[0] == '0',
{
    lemma2_to64();
    lemma_binary(address as nat, 16);
}

/// The word of a compute instruction is 16 binary digits, the first
/// three of them `1`.
pub proof fn lemma_compute_bits(dest: Seq<char>, comp: Seq<char>, jump: Seq<char>)
    requires
        compute_bits(dest, comp, jump) is Some,
    ensures
        is_binary_word(compute_bits(dest, comp, jump)->Some_0),
        compute_bits(dest, comp, jump)->Some_0.take(3) == seq!['1', '1', '1'],
{
    let word = compute_bits(dest, comp, jump)->Some_0;
    let c = alu_bits(memory_as_address(comp))->Some_0;
    let d = dest_bits(dest)->Some_0;
    let j = jump_bits(jump)->Some_0;
    reveal_strlit("000");
    reveal_strlit("001");
    reveal_strlit("010");
    reveal_strlit("011");
    reveal_strlit("100");
    reveal_strlit("101");
    reveal_strlit("110");
    reveal_strlit("111");
    reveal_strlit("101010");
    reveal_strlit("111111");
    reveal_strlit("111010");
    reveal_strlit("001100");
    reveal_strlit("110000");
    reveal_strlit("001101");
    reveal_strlit("110001");
    reveal_strlit("001111");
    reveal_strlit("110011");
    reveal_strlit("011111");
    reveal_strlit("110111");
    reveal_strlit("001110");
    reveal_strlit("110010");
    reveal_strlit("000010");
    reveal_strlit("010011");
    reveal_strlit("000111");
    reveal_strlit("000000");
    reveal_strlit("010101");
    assert(c.len() == 6 && forall|i: int| 0 <= i < 6 ==> c[i] == '0' || c[i] == '1');
    assert(d.len() == 3 && forall|i: int| 0 <= i < 3 ==> d[i] == '0' || d[i] == '1');
    assert(j.len() == 3 && forall|i: int| 0 <= i < 3 ==> j[i] == '0' || j[i] == '1');
    assert("111"@.len() == 3 && "111"@[0] == '1' && "111"@[1] == '1' && "111"@[2] == '1');
    assert(word.take(3) =~= seq!['1', '1', '1']);
}

/// Each bit of a destination stands for one register: the first is set
/// exactly where the mnemonic names `A`, the second where it names `D`,
/// the third where it names `M`.
pub proof fn lemma_dest_bits_flags(m: Seq<char>)
    requires
        dest_bits(m) is Some,
    ensures
        ({
            let bits = dest_bits(m)->Some_0;
            &&& bits.len() == 3
            &&& bits[0] == '1' <==> m.contains('A')
            &&& bits[1] == '1' <==> m.contains('D')
            &&& bits[2] == '1' <==> m.contains('M')
        }),
{
    reveal_strlit("");
    reveal_strlit("M");
    reveal_strlit("D");
    reveal_strlit("MD");
    reveal_strlit("A");
    reveal_strlit("AM");
    reveal_strlit("AD");
    reveal_strlit("AMD");
    reveal_strlit("000");
    reveal_strlit("001");
    reveal_strlit("010");
    reveal_strlit("011");
    reveal_strlit("100");
    reveal_strlit("101");
    reveal_strlit("110");
    reveal_strlit("111");
    let bits = dest_bits(m)->Some_0;
    assert(bits.len() == 3);
    assert(m.len() <= 3);
    if m.len() > 0 {
        assert(m.contains(m[0]));
    }
    if m.len() > 1 {
        assert(m.contains(m[1]));
    }
    if m.len() > 2 {
        assert(m.contains(m[2]));
    }
}

} // verus!
