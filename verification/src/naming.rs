//! Names of the image files that carry the parts of a message, and their order.

use vstd::prelude::*;

use crate::decimal::{decimal, decimal_digits, digit_code, digits_value, is_digits, lemma_decimal_digits};
use crate::order::{char_code_injective, lemma_text_lt_at, lemma_text_lt_common_prefix, text_lt};
use crate::text::push_char;

verus! {

/// The characters whose codes are `codes`.
pub open spec fn ascii_chars(codes: Seq<u8>) -> Seq<char> {
    codes.map_values(|b: u8| b as char)
}

/// The decimal notation of `index`, left-padded with zeros to five digits.
pub open spec fn padded_digits(index: nat) -> Seq<u8> {
    Seq::new((5 - decimal(index).len()) as nat, |_i: int| 48u8) + decimal(index)
}

/// The file name for part `index` of a message: five zero-padded digits and `.ppm`.
pub open spec fn file_name(index: nat) -> Seq<char> {
    ascii_chars(padded_digits(index)) + seq!['.', 'p', 'p', 'm']
}

/// Below 100000, the padded notation is the five decimal digits of `n`, most significant first.
pub proof fn lemma_padded_digits(n: nat)
    requires
        n < 100000,
    ensures
        decimal(n).len() <= 5,
        padded_digits(n) == seq![
            digit_code(n / 10000 % 10),
            digit_code(n / 1000 % 10),
            digit_code(n / 100 % 10),
            digit_code(n / 10 % 10),
            digit_code(n % 10),
        ],
{
    reveal_with_fuel(decimal, 6);
    let p = padded_digits(n);
    if n < 10 {
        assert(decimal(n) =~= seq![digit_code(n)]);
    } else if n < 100 {
        assert(decimal(n) =~= seq![digit_code(n / 10), digit_code(n % 10)]);
    } else if n < 1000 {
        assert(decimal(n / 10) =~= seq![digit_code(n / 100), digit_code(n / 10 % 10)]);
        assert(decimal(n) =~= seq![
            digit_code(n / 100),
            digit_code(n / 10 % 10),
            digit_code(n % 10),
        ]);
    } else if n < 10000 {
        assert(decimal(n / 100) =~= seq![digit_code(n / 1000), digit_code(n / 100 % 10)]);
        assert(decimal(n) =~= seq![
            digit_code(n / 1000),
            digit_code(n / 100 % 10),
            digit_code(n / 10 % 10),
            digit_code(n % 10),
        ]);
    } else {
        assert(decimal(n / 1000) =~= seq![digit_code(n / 10000), digit_code(n / 1000 % 10)]);
        assert(decimal(n) =~= seq![
            digit_code(n / 10000),
            digit_code(n / 1000 % 10),
            digit_code(n / 100 % 10),
            digit_code(n / 10 % 10),
            digit_code(n % 10),
        ]);
    }
    assert(p =~= seq![
        digit_code(n / 10000 % 10),
        digit_code(n / 1000 % 10),
        digit_code(n / 100 % 10),
        digit_code(n / 10 % 10),
        digit_code(n % 10),
    ]);
}

proof fn lemma_five_digits(n: nat)
    requires
        n < 100000,
    ensures
        n == 10000 * (n / 10000 % 10) + 1000 * (n / 1000 % 10) + 100 * (n / 100 % 10) + 10 * (n
            / 10 % 10) + n % 10,
        n / 10000 % 10 < 10,
        n / 1000 % 10 < 10,
        n / 100 % 10 < 10,
        n / 10 % 10 < 10,
        n % 10 < 10,
{
    assert(n == 10000 * (n / 10000 % 10) + 1000 * (n / 1000 % 10) + 100 * (n / 100 % 10) + 10 * (n
        / 10 % 10) + n % 10) by (nonlinear_arith)
        requires
            n < 100000,
    ;
}

/// Part names sort in the order of their indices: zero padding makes the lexicographic
/// order of the names that of the numbers.
pub proof fn lemma_file_names_ordered(i: nat, j: nat)
    requires
        i < j < 100000,
    ensures
        text_lt(file_name(i), file_name(j)),
        !text_lt(file_name(j), file_name(i)),
{
    lemma_padded_digits(i);
    lemma_padded_digits(j);
    lemma_five_digits(i);
    lemma_five_digits(j);
    let a = file_name(i);
    let b = file_name(j);
    let da = seq![i / 10000 % 10, i / 1000 % 10, i / 100 % 10, i / 10 % 10, i % 10];
    let db = seq![j / 10000 % 10, j / 1000 % 10, j / 100 % 10, j / 10 % 10, j % 10];
    assert forall|k: int| 0 <= k < 5 implies (#[trigger] a[k]) as u32 == 48 + da[k] && (
    b[k] as u32) == 48 + db[k] by {}
    let k: int = if da[0] != db[0] {
        0
    } else if da[1] != db[1] {
        1
    } else if da[2] != db[2] {
        2
    } else if da[3] != db[3] {
        3
    } else {
        4
    };
    assert(da[k] < db[k]);
    assert forall|m: int| 0 <= m < k implies #[trigger] a[m] == b[m] by {
        char_code_injective(a[m], b[m]);
    }
    assert(a[k] != b[k]);
    lemma_text_lt_at(a, b, k);
    lemma_text_lt_at(b, a, k);
}

/// The codes of the first five characters of `name`.
pub open spec fn leading_codes(name: Seq<char>) -> Seq<u8> {
    Seq::new(5, |k: int| (name[k] as u32) as u8)
}

/// A part's file name is nine characters: five decimal digits that read back as the index,
/// then `.ppm`.
pub proof fn lemma_file_name_reads_back(index: nat)
    requires
        index < 100000,
    ensures
        file_name(index).len() == 9,
        forall|k: int| 0 <= k < 5 ==> (#[trigger] file_name(index)[k] as u32) < 128,
        is_digits(leading_codes(file_name(index))),
        digits_value(leading_codes(file_name(index))) == index,
        file_name(index).skip(5) == seq!['.', 'p', 'p', 'm'],
{
    lemma_padded_digits(index);
    lemma_five_digits(index);
    let name = file_name(index);
    let codes = leading_codes(name);
    let p = padded_digits(index);
    assert forall|k: int| 0 <= k < 5 implies (#[trigger] name[k] as u32) == p[k] by {}
    assert(codes =~= p);
    reveal_with_fuel(digits_value, 6);
    assert(p.drop_last() =~= seq![p[0], p[1], p[2], p[3]]);
    assert(p.drop_last().drop_last() =~= seq![p[0], p[1], p[2]]);
    assert(p.drop_last().drop_last().drop_last() =~= seq![p[0], p[1]]);
    assert(p.drop_last().drop_last().drop_last().drop_last() =~= seq![p[0]]);
    assert(seq![p[0]].drop_last() =~= Seq::<u8>::empty());
    assert(name.skip(5) =~= seq!['.', 'p', 'p', 'm']);
}

/// The file name for part `index` of a message: its decimal notation padded with leading
/// zeros to five digits, followed by `.ppm`.
pub fn pad_zeros_for_file(index: usize) -> (r: String)
    requires
        index < 100000,
    ensures
        r@ == file_name(index as nat),
{
    proof {
        lemma_padded_digits(index as nat);
        lemma_decimal_digits(index as nat);
    }
    let digits = decimal_digits(index as u64);
    let ghost padded = padded_digits(index as nat);
    let mut ret_val = String::new();
    let mut len: usize = digits.len();
    while len != 5
        invariant
            digits@ == decimal(index as nat),
            digits.len() <= len <= 5,
            ret_val@ == ascii_chars(padded).take(len - digits.len()),
            padded == Seq::new((5 - digits.len()) as nat, |_i: int| 48u8) + digits@,
        decreases 5 - len,
    {
        push_char(&mut ret_val, '0');
        len += 1;
        assert(ret_val@ =~= ascii_chars(padded).take(len - digits.len()));
    }
    let ghost zeros = ret_val@;
    for i in 0..digits.len()
        invariant
            digits@ == decimal(index as nat),
            digits.len() <= 5,
            zeros.len() == 5 - digits.len(),
            ret_val@ == ascii_chars(padded).take(zeros.len() + i),
            padded.len() == 5,
            padded == Seq::new((5 - digits.len()) as nat, |_i: int| 48u8) + digits@,
    {
        push_char(&mut ret_val, digits[i] as char);
        assert(ret_val@ =~= ascii_chars(padded).take(zeros.len() + i + 1));
    }
    push_char(&mut ret_val, '.');
    push_char(&mut ret_val, 'p');
    push_char(&mut ret_val, 'p');
    push_char(&mut ret_val, 'm');
    assert(ret_val@ =~= file_name(index as nat));
    ret_val
}

/// The path of the file for part `index` of a message in directory `output_dir`.
pub open spec fn output_path(output_dir: Seq<char>, index: nat) -> Seq<char> {
    output_dir + seq!['/'] + file_name(index)
}

/// The path `output_dir/NNNNN.ppm` of the file that carries part `index` of a message.
pub fn output_file_path(output_dir: &str, index: usize) -> (r: String)
    requires
        index < 100000,
    ensures
        r@ == output_path(output_dir@, index as nat),
{
    let mut path = output_dir.to_string();
    push_char(&mut path, '/');
    let name = pad_zeros_for_file(index);
    path.append(name.as_str());
    path
}

/// The path is the output directory verbatim, a `/`, and the part's file name.
pub proof fn lemma_output_path_parts(output_dir: Seq<char>, index: nat)
    requires
        index < 100000,
    ensures
        output_path(output_dir, index).len() == output_dir.len() + 10,
        output_path(output_dir, index).take(output_dir.len() as int) == output_dir,
        output_path(output_dir, index)[output_dir.len() as int] == '/',
        output_path(output_dir, index).skip(output_dir.len() as int + 1) == file_name(index),
{
    lemma_file_name_reads_back(index);
    let r = output_path(output_dir, index);
    assert(r.take(output_dir.len() as int) =~= output_dir);
    assert(r.skip(output_dir.len() as int + 1) =~= file_name(index));
}

/// Paths of parts in one directory sort in the order of the parts.
pub proof fn lemma_output_paths_ordered(output_dir: Seq<char>, i: nat, j: nat)
    requires
        i < j < 100000,
    ensures
        text_lt(output_path(output_dir, i), output_path(output_dir, j)),
        !text_lt(output_path(output_dir, j), output_path(output_dir, i)),
{
    lemma_file_names_ordered(i, j);
    let p = output_dir + seq!['/'];
    assert(output_path(output_dir, i) =~= p + file_name(i));
    assert(output_path(output_dir, j) =~= p + file_name(j));
    lemma_text_lt_common_prefix(p, file_name(i), file_name(j));
    lemma_text_lt_common_prefix(p, file_name(j), file_name(i));
}

} // verus!
