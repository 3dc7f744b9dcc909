use vstd::prelude::*;

use crate::mal_types::ErrorKind;
use crate::mal_types::Form;
use crate::mal_types::MalType;
use crate::mal_types::forms_of;
use crate::mal_types::lemma_collection_view;
use crate::reader::MAX_DEPTH;
use crate::reader::chars_to_string;
use crate::reader::digit_val;
use crate::reader::digits_val;
use crate::reader::is_digit_char;
use crate::reader::is_digit_or_dot_char;
use crate::reader::is_illegal_token_start;
use crate::reader::is_numeric_token;
use crate::reader::is_special_char;
use crate::reader::is_symbol_char;
use crate::reader::is_ws_char;
use crate::reader::lemma_read_form_progress;
use crate::reader::lemma_tokens_wf;
use crate::reader::numeric_body;
use crate::reader::scan_comment;
use crate::reader::scan_string;
use crate::reader::scan_symbol;
use crate::reader::spec_read_atom;
use crate::reader::spec_read_form;
use crate::reader::spec_read_seq;
use crate::reader::spec_read_str;
use crate::reader::spec_tokens;
use crate::reader::spec_tokens_from;
use crate::reader::spec_unescape;
use crate::reader::spec_unescape_from;
use crate::reader::str_chars;
use crate::reader::unescaped_char;
use crate::reader::wf_token;

verus! {

broadcast use vstd::std_specs::vec::group_vec_axioms, vstd::seq::group_seq_axioms;

/// The character for one decimal digit value.
pub open spec fn dec_digit(d: int) -> char {
    if d == 0 {
        '0'
    } else if d == 1 {
        '1'
    } else if d == 2 {
        '2'
    } else if d == 3 {
        '3'
    } else if d == 4 {
        '4'
    } else if d == 5 {
        '5'
    } else if d == 6 {
        '6'
    } else if d == 7 {
        '7'
    } else if d == 8 {
        '8'
    } else {
        '9'
    }
}

/// The decimal digits of a non-negative integer, most significant first.
pub open spec fn dec_nat(m: int) -> Seq<char>
    decreases m,
{
    if m < 10 {
        seq![dec_digit(m)]
    } else {
        dec_nat(m / 10) + seq![dec_digit(m % 10)]
    }
}

/// The decimal notation of an integer, with a leading minus when negative.
pub open spec fn spec_print_int(n: int) -> Seq<char> {
    if n < 0 {
        seq!['-'] + dec_nat(-n)
    } else {
        dec_nat(n)
    }
}

/// The escaped notation of one string character: the quote, the backslash
/// and the newline are written as two-character escapes, anything else
/// stands for itself.
pub open spec fn escaped_char(c: char) -> Seq<char> {
    if c == '"' {
        seq!['\\', '"']
    } else if c == '\\' {
        seq!['\\', '\\']
    } else if c == '\n' {
        seq!['\\', 'n']
    } else {
        seq![c]
    }
}

/// The escaped notation of string text: each character's escaped notation,
/// in order.
pub open spec fn spec_escape(s: Seq<char>) -> Seq<char>
    decreases s.len(),
{
    if s.len() == 0 {
        Seq::empty()
    } else {
        escaped_char(s[0]) + spec_escape(s.skip(1))
    }
}

/// The printed text of a value: atoms in their literal notation, string
/// text with its escapes re-applied, lists in parentheses and vectors in
/// brackets, elements separated by single spaces.
pub open spec fn spec_print(f: Form) -> Seq<char>
    decreases f, 0int,
{
    match f {
        Form::Symbol(s) => s,
        Form::Keyword(k) => seq![':'] + k,
        Form::Str(s) => seq!['"'] + spec_escape(s) + seq!['"'],
        Form::Number(n) => spec_print_int(n),
        Form::Bool(b) => if b {
            seq!['t', 'r', 'u', 'e']
        } else {
            seq!['f', 'a', 'l', 's', 'e']
        },
        Form::Nil => seq!['n', 'i', 'l'],
        Form::List(es) => seq!['('] + spec_print_elems(es, 0) + seq![')'],
        Form::Vector(es) => seq!['['] + spec_print_elems(es, 0) + seq![']'],
    }
}

/// The printed elements from index `i` on, separated by single spaces.
pub open spec fn spec_print_elems(es: Seq<Form>, i: int) -> Seq<char>
    decreases es, es.len() - i, 1int,
{
    if i < 0 || i >= es.len() {
        Seq::empty()
    } else if i == es.len() - 1 {
        spec_print(es[i])
    } else {
        spec_print(es[i]) + seq![' '] + spec_print_elems(es, i + 1)
    }
}

/// The digit character of one decimal digit.
fn dec_digit_char(d: u64) -> (c: char)
    requires
        d < 10,
    ensures
        c == dec_digit(d as int),
{
    if d == 0 {
        '0'
    } else if d == 1 {
        '1'
    } else if d == 2 {
        '2'
    } else if d == 3 {
        '3'
    } else if d == 4 {
        '4'
    } else if d == 5 {
        '5'
    } else if d == 6 {
        '6'
    } else if d == 7 {
        '7'
    } else if d == 8 {
        '8'
    } else {
        '9'
    }
}

/// Appends the decimal digits of `m`, most significant first.
fn push_dec(m: u64, out: &mut Vec<char>)
    ensures
        final(out)@ == old(out)@ + dec_nat(m as int),
    decreases m,
{
    if m < 10 {
        out.push(dec_digit_char(m));
        proof {
            assert(final(out)@ =~= old(out)@ + dec_nat(m as int));
        }
    } else {
        push_dec(m / 10, out);
        out.push(dec_digit_char(m % 10));
        proof {
            assert(final(out)@ =~= old(out)@ + dec_nat(m as int));
        }
    }
}

/// Appends the characters of a string.
fn push_str_chars(s: &String, out: &mut Vec<char>)
    ensures
        final(out)@ == old(out)@ + s@,
{
    let mut cs = str_chars(s.as_str());
    out.append(&mut cs);
}

/// Appends the escaped notation of the string's characters.
fn push_escaped_chars(s: &String, out: &mut Vec<char>)
    ensures
        final(out)@ == old(out)@ + spec_escape(s@),
{
    let cs = str_chars(s.as_str());
    let n = cs.len();
    let mut i: usize = 0;
    proof {
        assert(s@.skip(0) =~= s@);
    }
    while i < n
        invariant
            cs@ == s@,
            n == cs@.len(),
            i <= n,
            out@ + spec_escape(s@.skip(i as int)) == old(out)@ + spec_escape(s@),
        decreases n - i,
    {
        let ghost before = out@;
        let c = cs[i];
        if c == '"' {
            out.push('\\');
            out.push('"');
        } else if c == '\\' {
            out.push('\\');
            out.push('\\');
        } else if c == '\n' {
            out.push('\\');
            out.push('n');
        } else {
            out.push(c);
        }
        proof {
            assert(s@.skip(i as int)[0] == s@[i as int]);
            assert(s@.skip(i as int).skip(1) =~= s@.skip(i as int + 1));
            assert(spec_escape(s@.skip(i as int)) == escaped_char(s@[i as int]) + spec_escape(
                s@.skip(i as int + 1),
            ));
            assert(out@ =~= before + escaped_char(s@[i as int]));
            assert(out@ + spec_escape(s@.skip(i as int + 1)) =~= before + spec_escape(
                s@.skip(i as int),
            ));
        }
        i = i + 1;
    }
    proof {
        assert(s@.skip(n as int) =~= Seq::<char>::empty());
        assert(out@ + spec_escape(s@.skip(n as int)) =~= out@);
    }
}

/// Appends the printed text of a value.
#[verifier::loop_isolation(false)]
fn pr_into(ast: &MalType, out: &mut Vec<char>)
    ensures
        final(out)@ == old(out)@ + spec_print(ast@),
    decreases ast,
{
    match ast {
        MalType::Symbol(s) => {
            push_str_chars(s, out);
        },
        MalType::Keyword(k) => {
            out.push(':');
            push_str_chars(k, out);
            proof {
                assert(final(out)@ =~= old(out)@ + (seq![':'] + k@));
            }
        },
        MalType::Str(s) => {
            out.push('"');
            push_escaped_chars(s, out);
            out.push('"');
            proof {
                assert(final(out)@ =~= old(out)@ + (seq!['"'] + spec_escape(s@) + seq!['"']));
            }
        },
        MalType::Nil => {
            out.push('n');
            out.push('i');
            out.push('l');
            proof {
                assert(final(out)@ =~= old(out)@ + seq!['n', 'i', 'l']);
            }
        },
        MalType::Bool(b) => {
            if *b {
                out.push('t');
                out.push('r');
                out.push('u');
                out.push('e');
                proof {
                    assert(final(out)@ =~= old(out)@ + seq!['t', 'r', 'u', 'e']);
                }
            } else {
                out.push('f');
                out.push('a');
                out.push('l');
                out.push('s');
                out.push('e');
                proof {
                    assert(final(out)@ =~= old(out)@ + seq!['f', 'a', 'l', 's', 'e']);
                }
            }
        },
        MalType::Number(n) => {
            let nv = *n;
            if nv < 0 {
                out.push('-');
                let mag: u64 = if nv == i64::MIN {
                    9223372036854775808u64
                } else {
                    (-nv) as u64
                };
                push_dec(mag, out);
                proof {
                    assert(final(out)@ =~= old(out)@ + (seq!['-'] + dec_nat(mag as int)));
                }
            } else {
                push_dec(nv as u64, out);
            }
        },
        MalType::MalList(es) => {
            proof {
                lemma_collection_view(*ast);
            }
            let ghost fs = forms_of(es@);
            out.push('(');
            let n = es.len();
            let mut i: usize = 0;
            proof {
                assert(out@ + spec_print_elems(fs, 0) + seq![')'] =~= old(out)@ + spec_print(
                    ast@,
                ));
            }
            while i < n
                invariant
                    i <= n,
                    out@ + spec_print_elems(fs, i as int) + seq![')'] == old(out)@ + spec_print(
                        ast@,
                    ),
                decreases n - i,
            {
                let ghost before = out@;
                proof {
                    assert(es@[i as int]@ == fs[i as int]);
                }
                pr_into(&es[i], out);
                if i + 1 < n {
                    out.push(' ');
                    proof {
                        assert(spec_print_elems(fs, i as int) == spec_print(fs[i as int])
                            + seq![' '] + spec_print_elems(fs, i as int + 1));
                        assert(out@ + spec_print_elems(fs, i as int + 1) + seq![')'] =~= before
                            + spec_print_elems(fs, i as int) + seq![')']);
                    }
                } else {
                    proof {
                        assert(spec_print_elems(fs, i as int) == spec_print(fs[i as int]));
                        assert(out@ + spec_print_elems(fs, i as int + 1) + seq![')'] =~= before
                            + spec_print_elems(fs, i as int) + seq![')']);
                    }
                }
                i = i + 1;
            }
            out.push(')');
            proof {
                assert(final(out)@ =~= old(out)@ + spec_print(ast@));
            }
        },
        MalType::Vector(es) => {
            proof {
                lemma_collection_view(*ast);
            }
            let ghost fs = forms_of(es@);
            out.push('[');
            let n = es.len();
            let mut i: usize = 0;
            proof {
                assert(out@ + spec_print_elems(fs, 0) + seq![']'] =~= old(out)@ + spec_print(
                    ast@,
                ));
            }
            while i < n
                invariant
                    i <= n,
                    out@ + spec_print_elems(fs, i as int) + seq![']'] == old(out)@ + spec_print(
                        ast@,
                    ),
                decreases n - i,
            {
                let ghost before = out@;
                proof {
                    assert(es@[i as int]@ == fs[i as int]);
                }
                pr_into(&es[i], out);
                if i + 1 < n {
                    out.push(' ');
                    proof {
                        assert(spec_print_elems(fs, i as int) == spec_print(fs[i as int])
                            + seq![' '] + spec_print_elems(fs, i as int + 1));
                        assert(out@ + spec_print_elems(fs, i as int + 1) + seq![']'] =~= before
                            + spec_print_elems(fs, i as int) + seq![']']);
                    }
                } else {
                    proof {
                        assert(spec_print_elems(fs, i as int) == spec_print(fs[i as int]));
                        assert(out@ + spec_print_elems(fs, i as int + 1) + seq![']'] =~= before
                            + spec_print_elems(fs, i as int) + seq![']']);
                    }
                }
                i = i + 1;
            }
            out.push(']');
            proof {
                assert(final(out)@ =~= old(out)@ + spec_print(ast@));
            }
        },
    }
}

/// Converts a value tree back to its textual notation.
pub fn pr_str(ast: &MalType) -> (r: String)
    ensures
        r@ == spec_print(ast@),
{
    let mut out: Vec<char> = Vec::new();
    pr_into(ast, &mut out);
    chars_to_string(out)
}

// ---------------------------------------------------------------------------
// Round trip between the printer and the reader
// ---------------------------------------------------------------------------

/// Symbol text whose printed form scans back as one symbol token and
/// resolves back to the same symbol.
pub open spec fn printable_symbol(s: Seq<char>) -> bool {
    &&& s.len() >= 1
    &&& forall|k: int| 0 <= k < s.len() ==> is_symbol_char(#[trigger] s[k])
    &&& s[0] != '~'
    &&& s[0] != '^'
    &&& s[0] != '@'
    &&& s[0] != ':'
    &&& !is_numeric_token(s)
    &&& s != seq!['n', 'i', 'l']
    &&& s != seq!['t', 'r', 'u', 'e']
    &&& s != seq!['f', 'a', 'l', 's', 'e']
}

/// Keyword text whose printed form scans back as one keyword token.
pub open spec fn printable_keyword(k: Seq<char>) -> bool {
    forall|i: int| 0 <= i < k.len() ==> is_symbol_char(#[trigger] k[i])
}

/// A value tree whose printed text reads back as exactly the same tree.
pub open spec fn printable(f: Form) -> bool
    decreases f, 0int,
{
    match f {
        Form::Symbol(s) => printable_symbol(s),
        Form::Keyword(k) => printable_keyword(k),
        Form::Str(_) => true,
        Form::Number(n) => i64::MIN <= n <= i64::MAX,
        Form::Bool(_) => true,
        Form::Nil => true,
        Form::List(es) => printable_elems(es, 0),
        Form::Vector(es) => printable_elems(es, 0),
    }
}

pub open spec fn printable_elems(es: Seq<Form>, i: int) -> bool
    decreases es, es.len() - i, 1int,
{
    if i < 0 || i >= es.len() {
        true
    } else {
        printable(es[i]) && printable_elems(es, i + 1)
    }
}

/// The token sequence that scanning a printed form yields.
pub open spec fn form_toks(f: Form) -> Seq<Seq<char>>
    decreases f, 0int,
{
    match f {
        Form::Symbol(s) => seq![s],
        Form::Keyword(k) => seq![seq![':'] + k],
        Form::Str(s) => seq![seq!['"'] + spec_escape(s) + seq!['"']],
        Form::Number(n) => seq![spec_print_int(n)],
        Form::Bool(b) => if b {
            seq![seq!['t', 'r', 'u', 'e']]
        } else {
            seq![seq!['f', 'a', 'l', 's', 'e']]
        },
        Form::Nil => seq![seq!['n', 'i', 'l']],
        Form::List(es) => seq![seq!['(']] + elems_toks(es, 0) + seq![seq![')']],
        Form::Vector(es) => seq![seq!['[']] + elems_toks(es, 0) + seq![seq![']']],
    }
}

pub open spec fn elems_toks(es: Seq<Form>, i: int) -> Seq<Seq<char>>
    decreases es, es.len() - i, 1int,
{
    if i < 0 || i >= es.len() {
        Seq::empty()
    } else {
        form_toks(es[i]) + elems_toks(es, i + 1)
    }
}

/// How deeply a form nests: one for an atom, one more for each enclosing
/// collection.
pub open spec fn form_depth(f: Form) -> int
    decreases f, 0int,
{
    match f {
        Form::List(es) => 1 + elems_depth(es, 0),
        Form::Vector(es) => 1 + elems_depth(es, 0),
        _ => 1,
    }
}

pub open spec fn elems_depth(es: Seq<Form>, i: int) -> int
    decreases es, es.len() - i, 1int,
{
    if i < 0 || i >= es.len() {
        0
    } else if form_depth(es[i]) >= elems_depth(es, i + 1) {
        form_depth(es[i])
    } else {
        elems_depth(es, i + 1)
    }
}

proof fn lemma_form_depth_pos(f: Form)
    ensures
        form_depth(f) >= 1,
    decreases f, 0int,
{
    match f {
        Form::List(es) => lemma_elems_depth_nonneg(es, 0),
        Form::Vector(es) => lemma_elems_depth_nonneg(es, 0),
        _ => {},
    }
}

proof fn lemma_elems_depth_nonneg(es: Seq<Form>, i: int)
    ensures
        elems_depth(es, i) >= 0,
    decreases es, es.len() - i, 1int,
{
    if 0 <= i < es.len() {
        lemma_form_depth_pos(es[i]);
        lemma_elems_depth_nonneg(es, i + 1);
    }
}

// ---------------------------------------------------------------------------
// Decimal notation round trip
// ---------------------------------------------------------------------------

proof fn lemma_dec_nat_digits(m: int)
    requires
        m >= 0,
    ensures
        dec_nat(m).len() >= 1,
        forall|k: int| 0 <= k < dec_nat(m).len() ==> is_digit_char(#[trigger] dec_nat(m)[k]),
    decreases m,
{
    if m >= 10 {
        lemma_dec_nat_digits(m / 10);
    }
}

proof fn lemma_digits_val_dec_nat(m: int)
    requires
        m >= 0,
    ensures
        digits_val(dec_nat(m)) == m,
    decreases m,
{
    if m < 10 {
        let ds = seq![dec_digit(m)];
        assert(dec_nat(m) == ds);
        assert(ds.drop_last() =~= Seq::<char>::empty());
        assert(digits_val(ds) == digits_val(ds.drop_last()) * 10 + digit_val(ds.last()));
        assert(digits_val(ds.drop_last()) == 0);
        assert(ds.last() == dec_digit(m));
        assert(digit_val(dec_digit(m)) == m);
    } else {
        lemma_digits_val_dec_nat(m / 10);
        let ds = dec_nat(m);
        assert(ds == dec_nat(m / 10) + seq![dec_digit(m % 10)]);
        assert(ds.drop_last() =~= dec_nat(m / 10));
        assert(ds.last() == dec_digit(m % 10));
        assert(digits_val(ds) == digits_val(ds.drop_last()) * 10 + digit_val(ds.last()));
        assert(0 <= m % 10 < 10);
        assert(digit_val(dec_digit(m % 10)) == m % 10);
        assert(m / 10 * 10 + m % 10 == m);
    }
}

/// The printed notation of an in-range integer resolves back to it.
proof fn lemma_read_atom_number(n: int)
    requires
        i64::MIN <= n <= i64::MAX,
    ensures
        spec_read_atom(spec_print_int(n)) == Ok::<Form, ErrorKind>(Form::Number(n)),
{
    let t = spec_print_int(n);
    if n < 0 {
        let ds = dec_nat(-n);
        lemma_dec_nat_digits(-n);
        assert(t == seq!['-'] + ds);
        assert(t[0] == '-');
        assert(numeric_body(t) =~= ds);
        assert(forall|k: int|
            0 <= k < numeric_body(t).len() ==> is_digit_char(#[trigger] numeric_body(t)[k]));
        assert(is_numeric_token(t));
        lemma_digits_val_dec_nat(-n);
    } else {
        let ds = dec_nat(n);
        lemma_dec_nat_digits(n);
        assert(t == ds);
        assert(is_digit_char(t[0]));
        assert(t[0] != '-');
        assert(numeric_body(t) == t);
        assert(is_numeric_token(t));
        lemma_digits_val_dec_nat(n);
    }
}

// ---------------------------------------------------------------------------
// Scanning printed text
// ---------------------------------------------------------------------------

proof fn lemma_scan_comment_shift(a: Seq<char>, b: Seq<char>, j: int)
    requires
        0 <= j,
    ensures
        scan_comment(a + b, a.len() + j) == a.len() + scan_comment(b, j),
    decreases b.len() - j,
{
    if j < b.len() {
        assert((a + b)[a.len() + j] == b[j]);
        if b[j] != '\n' {
            lemma_scan_comment_shift(a, b, j + 1);
        }
    }
}

proof fn lemma_scan_symbol_shift(a: Seq<char>, b: Seq<char>, j: int)
    requires
        0 <= j,
    ensures
        scan_symbol(a + b, a.len() + j) == a.len() + scan_symbol(b, j),
    decreases b.len() - j,
{
    if j < b.len() {
        assert((a + b)[a.len() + j] == b[j]);
        if is_symbol_char(b[j]) {
            lemma_scan_symbol_shift(a, b, j + 1);
        }
    }
}

proof fn lemma_scan_string_shift(a: Seq<char>, b: Seq<char>, j: int)
    requires
        0 <= j,
    ensures
        scan_string(a + b, a.len() + j) == match scan_string(b, j) {
            Some(k) => Some(a.len() + k),
            None => None::<int>,
        },
    decreases b.len() - j,
{
    if j < b.len() {
        assert((a + b)[a.len() + j] == b[j]);
        if b[j] != '"' && b[j] != '\n' {
            if b[j] == '\\' {
                if j + 1 < b.len() {
                    assert((a + b)[a.len() + j + 1] == b[j + 1]);
                    if b[j + 1] != '\n' {
                        lemma_scan_string_shift(a, b, j + 2);
                    }
                }
            } else {
                lemma_scan_string_shift(a, b, j + 1);
            }
        }
    }
}

/// Scanning after a prefix sees exactly the tokens of the suffix.
proof fn lemma_tokens_shift(a: Seq<char>, b: Seq<char>, j: int)
    requires
        0 <= j,
    ensures
        spec_tokens_from(a + b, a.len() + j) == spec_tokens_from(b, j),
    decreases b.len() - j,
{
    let u = a + b;
    let i = a.len() + j;
    if j < b.len() {
        assert(u[i] == b[j]);
        let c = b[j];
        if is_ws_char(c) {
            lemma_tokens_shift(a, b, j + 1);
        } else if c == ';' {
            crate::reader::lemma_scan_comment_bounds(b, j + 1);
            lemma_scan_comment_shift(a, b, j + 1);
            lemma_tokens_shift(a, b, scan_comment(b, j + 1));
        } else if c == '~' {
            if j + 1 < b.len() {
                assert(u[i + 1] == b[j + 1]);
            }
            if j + 1 < b.len() && b[j + 1] == '@' {
                assert(u.subrange(i, i + 2) =~= b.subrange(j, j + 2));
                lemma_tokens_shift(a, b, j + 2);
            } else {
                assert(u.subrange(i, i + 1) =~= b.subrange(j, j + 1));
                lemma_tokens_shift(a, b, j + 1);
            }
        } else if is_special_char(c) {
            assert(u.subrange(i, i + 1) =~= b.subrange(j, j + 1));
            lemma_tokens_shift(a, b, j + 1);
        } else if c == '"' {
            lemma_scan_string_shift(a, b, j + 1);
            match scan_string(b, j + 1) {
                None => {},
                Some(k) => {
                    crate::reader::lemma_scan_string_bounds(b, j + 1);
                    assert(u.subrange(i, a.len() + k + 1) =~= b.subrange(j, k + 1));
                    lemma_tokens_shift(a, b, k + 1);
                },
            }
        } else {
            crate::reader::lemma_scan_symbol_bounds(b, j + 1);
            lemma_scan_symbol_shift(a, b, j + 1);
            let e = scan_symbol(b, j + 1);
            assert(u.subrange(i, a.len() + e) =~= b.subrange(j, e));
            lemma_tokens_shift(a, b, e);
        }
    }
}

/// Text that may follow a printed form without extending its last token.
pub open spec fn token_boundary(rest: Seq<char>) -> bool {
    rest.len() == 0 || rest[0] == ' ' || rest[0] == ')' || rest[0] == ']'
}

proof fn lemma_scan_symbol_all(u: Seq<char>, i: int, e: int)
    requires
        0 <= i <= e <= u.len(),
        forall|k: int| i <= k < e ==> is_symbol_char(#[trigger] u[k]),
        e == u.len() || !is_symbol_char(u[e]),
    ensures
        scan_symbol(u, i) == e,
    decreases e - i,
{
    if i < e {
        lemma_scan_symbol_all(u, i + 1, e);
    }
}

proof fn lemma_scan_string_escaped(u: Seq<char>, j: int, s: Seq<char>)
    requires
        0 <= j,
        j + spec_escape(s).len() < u.len(),
        u.subrange(j, j + spec_escape(s).len()) == spec_escape(s),
        u[j + spec_escape(s).len()] == '"',
    ensures
        scan_string(u, j) == Some(j + spec_escape(s).len()),
    decreases s.len(),
{
    let esc = spec_escape(s);
    if s.len() == 0 {
        assert(u[j] == '"');
    } else {
        let c = s[0];
        let e0 = escaped_char(c);
        let esc2 = spec_escape(s.skip(1));
        assert(esc == e0 + esc2);
        assert(u[j] == u.subrange(j, j + esc.len())[0]);
        assert(u[j] == esc[0]);
        if c == '"' || c == '\\' || c == '\n' {
            assert(e0.len() == 2);
            assert(esc[0] == '\\');
            assert(u[j + 1] == u.subrange(j, j + esc.len())[1]);
            assert(u[j + 1] == e0[1]);
            assert(e0[1] == '"' || e0[1] == '\\' || e0[1] == 'n');
            assert(u[j + 1] != '\n');
            assert forall|k: int| 0 <= k < esc2.len() implies u.subrange(
                j + 2,
                j + 2 + esc2.len(),
            )[k] == esc2[k] by {
                assert(u.subrange(j, j + esc.len())[2 + k] == u[j + 2 + k]);
                assert(esc[2 + k] == esc2[k]);
                assert(u.subrange(j + 2, j + 2 + esc2.len())[k] == u[j + 2 + k]);
            }
            assert(u.subrange(j + 2, j + 2 + esc2.len()) =~= esc2);
            lemma_scan_string_escaped(u, j + 2, s.skip(1));
        } else {
            assert(e0.len() == 1);
            assert(u[j] == c);
            assert(u[j] != '"' && u[j] != '\\' && u[j] != '\n');
            assert forall|k: int| 0 <= k < esc2.len() implies u.subrange(
                j + 1,
                j + 1 + esc2.len(),
            )[k] == esc2[k] by {
                assert(u.subrange(j, j + esc.len())[1 + k] == u[j + 1 + k]);
                assert(esc[1 + k] == esc2[k]);
                assert(u.subrange(j + 1, j + 1 + esc2.len())[k] == u[j + 1 + k]);
            }
            assert(u.subrange(j + 1, j + 1 + esc2.len()) =~= esc2);
            lemma_scan_string_escaped(u, j + 1, s.skip(1));
        }
    }
}

/// One symbol-like token followed by a boundary scans as itself.
proof fn lemma_single_symbol_token(t: Seq<char>, rest: Seq<char>)
    requires
        t.len() >= 1,
        forall|k: int| 0 <= k < t.len() ==> is_symbol_char(#[trigger] t[k]),
        t[0] != '~',
        !is_special_char(t[0]),
        token_boundary(rest),
    ensures
        spec_tokens(t + rest) == match spec_tokens(rest) {
            Ok(ts) => Ok::<Seq<Seq<char>>, ErrorKind>(seq![t] + ts),
            Err(k) => Err::<Seq<Seq<char>>, ErrorKind>(k),
        },
{
    let u = t + rest;
    assert(u[0] == t[0]);
    assert(!is_ws_char(t[0]));
    assert(t[0] != ';' && t[0] != '"');
    assert(forall|k: int| 0 <= k < t.len() ==> u[k] == t[k]);
    if rest.len() > 0 {
        assert(u[t.len() as int] == rest[0]);
        assert(!is_symbol_char(rest[0]));
    }
    lemma_scan_symbol_all(u, 1, t.len() as int);
    assert(u.subrange(0, t.len() as int) =~= t);
    lemma_tokens_shift(t, rest, 0);
}

/// One printed string token followed by anything scans as itself.
proof fn lemma_single_string_token(s: Seq<char>, rest: Seq<char>)
    ensures
        ({
            let t = seq!['"'] + spec_escape(s) + seq!['"'];
            spec_tokens(t + rest) == match spec_tokens(rest) {
                Ok(ts) => Ok::<Seq<Seq<char>>, ErrorKind>(seq![t] + ts),
                Err(k) => Err::<Seq<Seq<char>>, ErrorKind>(k),
            }
        }),
{
    let esc = spec_escape(s);
    let elen = esc.len() as int;
    let t = seq!['"'] + esc + seq!['"'];
    let u = t + rest;
    assert(u[0] == '"');
    assert(!is_ws_char('"') && !is_special_char('"') && '"' != ';' && '"' != '~');
    assert forall|k: int| 0 <= k < elen implies u.subrange(1, 1 + elen)[k] == esc[k] by {
        assert(u[1 + k] == t[1 + k]);
        assert(t[1 + k] == esc[k]);
        assert(u.subrange(1, 1 + elen)[k] == u[1 + k]);
    }
    assert(u.subrange(1, 1 + elen) =~= esc);
    assert(u[1 + elen] == t[1 + elen]);
    assert(u[1 + elen] == '"');
    lemma_scan_string_escaped(u, 1, s);
    assert(u.subrange(0, t.len() as int) =~= t);
    lemma_tokens_shift(t, rest, 0);
}

/// Scanning a printed form yields its tokens, then the tokens of what
/// follows.
proof fn lemma_print_tokens(f: Form, rest: Seq<char>)
    requires
        printable(f),
        token_boundary(rest),
    ensures
        spec_tokens(spec_print(f) + rest) == match spec_tokens(rest) {
            Ok(ts) => Ok::<Seq<Seq<char>>, ErrorKind>(form_toks(f) + ts),
            Err(k) => Err::<Seq<Seq<char>>, ErrorKind>(k),
        },
    decreases f, 0int, 0int,
{
    match f {
        Form::Symbol(s) => {
            lemma_single_symbol_token(s, rest);
        },
        Form::Keyword(k) => {
            let t = seq![':'] + k;
            assert(is_symbol_char(':'));
            assert(forall|i: int| 0 <= i < t.len() ==> is_symbol_char(#[trigger] t[i]));
            lemma_single_symbol_token(t, rest);
        },
        Form::Str(s) => {
            lemma_single_string_token(s, rest);
        },
        Form::Number(n) => {
            let t = spec_print_int(n);
            if n < 0 {
                lemma_dec_nat_digits(-n);
                assert(t == seq!['-'] + dec_nat(-n));
                assert(t[0] == '-');
                assert(forall|i: int| 0 <= i < t.len() ==> is_symbol_char(#[trigger] t[i]));
            } else {
                lemma_dec_nat_digits(n);
                assert(forall|i: int| 0 <= i < t.len() ==> is_symbol_char(#[trigger] t[i]));
            }
            lemma_single_symbol_token(t, rest);
        },
        Form::Bool(b) => {
            let t = if b {
                seq!['t', 'r', 'u', 'e']
            } else {
                seq!['f', 'a', 'l', 's', 'e']
            };
            assert(forall|i: int| 0 <= i < t.len() ==> is_symbol_char(#[trigger] t[i]));
            lemma_single_symbol_token(t, rest);
        },
        Form::Nil => {
            let t = seq!['n', 'i', 'l'];
            assert(forall|i: int| 0 <= i < t.len() ==> is_symbol_char(#[trigger] t[i]));
            lemma_single_symbol_token(t, rest);
        },
        Form::List(es) => {
            lemma_print_collection_tokens(es, '(', ')', rest);
            assert(spec_print(f) == seq!['('] + spec_print_elems(es, 0) + seq![')']);
            assert(form_toks(f) == seq![seq!['(']] + elems_toks(es, 0) + seq![seq![')']]);
        },
        Form::Vector(es) => {
            lemma_print_collection_tokens(es, '[', ']', rest);
            assert(spec_print(f) == seq!['['] + spec_print_elems(es, 0) + seq![']']);
            assert(form_toks(f) == seq![seq!['[']] + elems_toks(es, 0) + seq![seq![']']]);
        },
    }
}

/// Scanning a printed collection: the open delimiter, the elements' tokens,
/// and the close delimiter.
proof fn lemma_print_collection_tokens(es: Seq<Form>, open: char, close: char, rest: Seq<char>)
    requires
        printable_elems(es, 0),
        open == '(' && close == ')' || open == '[' && close == ']',
        token_boundary(rest),
    ensures
        spec_tokens((seq![open] + spec_print_elems(es, 0) + seq![close]) + rest) == match spec_tokens(
            rest,
        ) {
            Ok(ts) => Ok::<Seq<Seq<char>>, ErrorKind>(
                (seq![seq![open]] + elems_toks(es, 0) + seq![seq![close]]) + ts,
            ),
            Err(k) => Err::<Seq<Seq<char>>, ErrorKind>(k),
        },
    decreases es, es.len() + 1, 0int,
{
    let body = spec_print_elems(es, 0) + (seq![close] + rest);
    let u = (seq![open] + spec_print_elems(es, 0) + seq![close]) + rest;
    assert(u =~= seq![open] + body);
    assert(u[0] == open);
    assert(is_special_char(open) && !is_ws_char(open) && open != ';' && open != '~' && open
        != '"');
    assert(u.subrange(0, 1) =~= seq![open]);
    lemma_tokens_shift(seq![open], body, 0);
    lemma_print_elems_tokens(es, 0, seq![close] + rest);
    let ctext = seq![close] + rest;
    assert(ctext[0] == close);
    assert(is_special_char(close) && !is_ws_char(close) && close != ';' && close != '~' && close
        != '"');
    assert(ctext.subrange(0, 1) =~= seq![close]);
    lemma_tokens_shift(seq![close], rest, 0);
    match spec_tokens(rest) {
        Ok(ts) => {
            assert(spec_tokens(ctext) == Ok::<Seq<Seq<char>>, ErrorKind>(seq![seq![close]] + ts));
            match spec_tokens(body) {
                Ok(bts) => {
                    assert(bts == elems_toks(es, 0) + (seq![seq![close]] + ts));
                    assert(spec_tokens(u) == Ok::<Seq<Seq<char>>, ErrorKind>(
                        seq![seq![open]] + bts,
                    ));
                    assert(seq![seq![open]] + (elems_toks(es, 0) + (seq![seq![close]] + ts)) =~~= (
                    seq![seq![open]] + elems_toks(es, 0) + seq![seq![close]]) + ts);
                },
                Err(_) => {},
            }
        },
        Err(_) => {},
    }
}

/// Scanning printed elements: each element's tokens in order, then the
/// tokens of what follows the elements.
proof fn lemma_print_elems_tokens(es: Seq<Form>, i: int, rest: Seq<char>)
    requires
        0 <= i,
        printable_elems(es, i),
        token_boundary(rest),
    ensures
        spec_tokens(spec_print_elems(es, i) + rest) == match spec_tokens(rest) {
            Ok(ts) => Ok::<Seq<Seq<char>>, ErrorKind>(elems_toks(es, i) + ts),
            Err(k) => Err::<Seq<Seq<char>>, ErrorKind>(k),
        },
    decreases es, es.len() - i, 2int,
{
    if i >= es.len() {
        assert(spec_print_elems(es, i) + rest =~= rest);
        match spec_tokens(rest) {
            Ok(ts) => {
                assert(elems_toks(es, i) + ts =~~= ts);
            },
            Err(_) => {},
        }
    } else if i == es.len() - 1 {
        lemma_print_tokens(es[i], rest);
        assert(spec_print_elems(es, i) == spec_print(es[i]));
        match spec_tokens(rest) {
            Ok(ts) => {
                assert(elems_toks(es, i) =~~= form_toks(es[i]) + elems_toks(es, i + 1));
                assert(elems_toks(es, i) + ts =~~= form_toks(es[i]) + ts);
            },
            Err(_) => {},
        }
    } else {
        let tail = spec_print_elems(es, i + 1) + rest;
        let rest2 = seq![' '] + tail;
        lemma_print_tokens(es[i], rest2);
        assert(spec_print_elems(es, i) + rest =~= spec_print(es[i]) + rest2);
        assert(rest2[0] == ' ' && is_ws_char(' '));
        assert(rest2.subrange(1, rest2.len() as int) =~= tail);
        lemma_tokens_shift(seq![' '], tail, 0);
        assert(rest2 =~= seq![' '] + tail);
        assert(spec_tokens(rest2) == spec_tokens(tail));
        lemma_print_elems_tokens(es, i + 1, rest);
        match spec_tokens(rest) {
            Ok(ts) => {
                assert(form_toks(es[i]) + (elems_toks(es, i + 1) + ts) =~~= elems_toks(es, i)
                    + ts);
            },
            Err(_) => {},
        }
    }
}

// ---------------------------------------------------------------------------
// Reading printed tokens
// ---------------------------------------------------------------------------

proof fn lemma_unescape_escaped(t: Seq<char>, j: int, s: Seq<char>)
    requires
        1 <= j,
        j + spec_escape(s).len() < t.len(),
        t.subrange(j, j + spec_escape(s).len()) == spec_escape(s),
        t[j + spec_escape(s).len()] == '"',
    ensures
        spec_unescape_from(t, j) == Ok::<Seq<char>, ErrorKind>(s),
    decreases s.len(),
{
    let esc = spec_escape(s);
    if s.len() == 0 {
        assert(t[j] == '"');
        assert(s =~= Seq::<char>::empty());
    } else {
        let c = s[0];
        let e0 = escaped_char(c);
        let esc2 = spec_escape(s.skip(1));
        assert(esc == e0 + esc2);
        assert(t[j] == t.subrange(j, j + esc.len())[0]);
        assert(t[j] == esc[0]);
        if c == '"' || c == '\\' || c == '\n' {
            assert(e0.len() == 2);
            assert(t[j] == '\\');
            assert(t[j + 1] == t.subrange(j, j + esc.len())[1]);
            assert(t[j + 1] == e0[1]);
            assert forall|k: int| 0 <= k < esc2.len() implies t.subrange(
                j + 2,
                j + 2 + esc2.len(),
            )[k] == esc2[k] by {
                assert(t.subrange(j, j + esc.len())[2 + k] == t[j + 2 + k]);
                assert(esc[2 + k] == esc2[k]);
                assert(t.subrange(j + 2, j + 2 + esc2.len())[k] == t[j + 2 + k]);
            }
            assert(t.subrange(j + 2, j + 2 + esc2.len()) =~= esc2);
            lemma_unescape_escaped(t, j + 2, s.skip(1));
            assert(unescaped_char(e0[1]) == c);
            assert(seq![c] + s.skip(1) =~= s);
        } else {
            assert(e0.len() == 1);
            assert(t[j] == c);
            assert(t[j] != '"' && t[j] != '\\');
            assert forall|k: int| 0 <= k < esc2.len() implies t.subrange(
                j + 1,
                j + 1 + esc2.len(),
            )[k] == esc2[k] by {
                assert(t.subrange(j, j + esc.len())[1 + k] == t[j + 1 + k]);
                assert(esc[1 + k] == esc2[k]);
                assert(t.subrange(j + 1, j + 1 + esc2.len())[k] == t[j + 1 + k]);
            }
            assert(t.subrange(j + 1, j + 1 + esc2.len()) =~= esc2);
            lemma_unescape_escaped(t, j + 1, s.skip(1));
            assert(seq![c] + s.skip(1) =~= s);
        }
    }
}

/// The first token of a printed form is never a bare closing delimiter.
proof fn lemma_form_first_token(f: Form)
    requires
        printable(f),
    ensures
        form_toks(f).len() >= 1,
        form_toks(f)[0].len() >= 1,
        form_toks(f)[0] != seq![')'],
        form_toks(f)[0] != seq![']'],
{
    match f {
        Form::Symbol(s) => {
            if s == seq![')'] {
                assert(s[0] == ')');
            }
            if s == seq![']'] {
                assert(s[0] == ']');
            }
        },
        Form::Keyword(k) => {
            let t = seq![':'] + k;
            assert(t[0] == ':');
            if t == seq![')'] {
                assert(t[0] == ')');
            }
            if t == seq![']'] {
                assert(t[0] == ']');
            }
        },
        Form::Str(s) => {
            let t = seq!['"'] + spec_escape(s) + seq!['"'];
            assert(t[0] == '"');
            if t == seq![')'] {
                assert(t[0] == ')');
            }
            if t == seq![']'] {
                assert(t[0] == ']');
            }
        },
        Form::Number(n) => {
            let t = spec_print_int(n);
            if n < 0 {
                lemma_dec_nat_digits(-n);
                assert(t[0] == '-');
            } else {
                lemma_dec_nat_digits(n);
                assert(is_digit_char(t[0]));
            }
            if t == seq![')'] {
                assert(t[0] == ')');
            }
            if t == seq![']'] {
                assert(t[0] == ']');
            }
        },
        Form::Bool(b) => {
            let t = form_toks(f)[0];
            if b {
                assert(t == seq!['t', 'r', 'u', 'e']);
            } else {
                assert(t == seq!['f', 'a', 'l', 's', 'e']);
            }
            if t == seq![')'] {
                assert(t[0] == ')');
            }
            if t == seq![']'] {
                assert(t[0] == ']');
            }
        },
        Form::Nil => {
            let t = seq!['n', 'i', 'l'];
            if t == seq![')'] {
                assert(t[0] == ')');
            }
            if t == seq![']'] {
                assert(t[0] == ']');
            }
        },
        Form::List(es) => {
            assert(form_toks(f)[0] == seq!['(']);
            if seq!['('] == seq![')'] {
                assert(seq!['('][0] == ')');
            }
            if seq!['('] == seq![']'] {
                assert(seq!['('][0] == ']');
            }
        },
        Form::Vector(es) => {
            assert(form_toks(f)[0] == seq!['[']);
            if seq!['['] == seq![')'] {
                assert(seq!['['][0] == ')');
            }
            if seq!['['] == seq![']'] {
                assert(seq!['['][0] == ']');
            }
        },
    }
}

/// A printable symbol resolves back to itself.
proof fn lemma_read_atom_symbol(s: Seq<char>)
    requires
        printable_symbol(s),
    ensures
        spec_read_atom(s) == Ok::<Form, ErrorKind>(Form::Symbol(s)),
{
}

/// The reserved words resolve back to their literals.
proof fn lemma_read_atom_literal()
    ensures
        spec_read_atom(seq!['n', 'i', 'l']) == Ok::<Form, ErrorKind>(Form::Nil),
        spec_read_atom(seq!['t', 'r', 'u', 'e']) == Ok::<Form, ErrorKind>(Form::Bool(true)),
        spec_read_atom(seq!['f', 'a', 'l', 's', 'e']) == Ok::<Form, ErrorKind>(Form::Bool(false)),
{
    let t1 = seq!['n', 'i', 'l'];
    assert(numeric_body(t1) == t1);
    assert(numeric_body(t1)[0] == 'n' && !is_digit_or_dot_char('n'));
    assert(!is_numeric_token(t1));
    let t2 = seq!['t', 'r', 'u', 'e'];
    assert(numeric_body(t2) == t2);
    assert(numeric_body(t2)[0] == 't' && !is_digit_or_dot_char('t'));
    assert(!is_numeric_token(t2));
    assert(t2 != t1);
    let t3 = seq!['f', 'a', 'l', 's', 'e'];
    assert(numeric_body(t3) == t3);
    assert(numeric_body(t3)[0] == 'f' && !is_digit_or_dot_char('f'));
    assert(!is_numeric_token(t3));
    assert(t3 != t1 && t3 != t2);
}

/// Reading the tokens of a printed form, wherever they stand in a token
/// sequence, gives back exactly the printed form.
proof fn lemma_read_form_toks(f: Form, toks: Seq<Seq<char>>, pos: int, depth: int)
    requires
        printable(f),
        0 <= pos,
        pos + form_toks(f).len() <= toks.len(),
        toks.subrange(pos, pos + form_toks(f).len()) == form_toks(f),
        0 <= depth,
        depth + form_depth(f) <= MAX_DEPTH,
    ensures
        spec_read_form(toks, pos, depth) == Ok::<(Form, int), ErrorKind>(
            (f, pos + form_toks(f).len()),
        ),
    decreases f, 0int, 0int,
{
    lemma_form_depth_pos(f);
    lemma_form_first_token(f);
    let t = toks[pos];
    assert(t == toks.subrange(pos, pos + form_toks(f).len())[0]);
    assert(t == form_toks(f)[0]);
    match f {
        Form::Symbol(s) => {
            assert(t == s);
            assert(is_symbol_char(t[0]));
            lemma_read_atom_symbol(s);
        },
        Form::Keyword(k) => {
            assert(t[0] == ':');
            assert(t.skip(1) =~= k);
        },
        Form::Str(s) => {
            let esc = spec_escape(s);
            let elen = esc.len() as int;
            assert(t == seq!['"'] + esc + seq!['"']);
            assert(t[0] == '"');
            assert forall|k: int| 0 <= k < elen implies t.subrange(1, 1 + elen)[k] == esc[k] by {
                assert(t[1 + k] == esc[k]);
                assert(t.subrange(1, 1 + elen)[k] == t[1 + k]);
            }
            assert(t.subrange(1, 1 + elen) =~= esc);
            assert(t[1 + elen] == '"');
            lemma_unescape_escaped(t, 1, s);
        },
        Form::Number(n) => {
            lemma_read_atom_number(n);
            if n < 0 {
                lemma_dec_nat_digits(-n);
                assert(t[0] == '-');
            } else {
                lemma_dec_nat_digits(n);
                assert(is_digit_char(t[0]));
            }
            assert(is_symbol_char(t[0]));
        },
        Form::Bool(b) => {
            lemma_read_atom_literal();
            assert(is_symbol_char(t[0]));
        },
        Form::Nil => {
            lemma_read_atom_literal();
            assert(t == seq!['n', 'i', 'l']);
            assert(t[0] == 'n' && is_symbol_char('n'));
        },
        Form::List(es) => {
            lemma_read_collection_toks(es, toks, pos, depth, '(', ')');
            assert(t == seq!['(']);
            assert(t[0] == '(');
        },
        Form::Vector(es) => {
            lemma_read_collection_toks(es, toks, pos, depth, '[', ']');
            assert(t == seq!['[']);
            assert(t[0] == '[');
        },
    }
}

/// Reading the body of a printed collection consumes exactly its element
/// tokens and the closing delimiter.
proof fn lemma_read_collection_toks(
    es: Seq<Form>,
    toks: Seq<Seq<char>>,
    pos: int,
    depth: int,
    open: char,
    close: char,
)
    requires
        printable_elems(es, 0),
        open == '(' && close == ')' || open == '[' && close == ']',
        0 <= pos,
        pos + elems_toks(es, 0).len() + 2 <= toks.len(),
        toks.subrange(pos, pos + elems_toks(es, 0).len() + 2) == seq![seq![open]] + elems_toks(
            es,
            0,
        ) + seq![seq![close]],
        0 <= depth,
        depth + 1 + elems_depth(es, 0) <= MAX_DEPTH,
    ensures
        spec_read_seq(toks, pos + 1, close, depth + 1) == Ok::<(Seq<Form>, int), ErrorKind>(
            (es, pos + elems_toks(es, 0).len() + 2),
        ),
    decreases es, es.len() + 1, 0int,
{
    let inner = elems_toks(es, 0);
    let whole = seq![seq![open]] + inner + seq![seq![close]];
    assert forall|k: int| 0 <= k < inner.len() implies toks.subrange(
        pos + 1,
        pos + 1 + inner.len(),
    )[k] == inner[k] by {
        assert(toks.subrange(pos, pos + inner.len() + 2)[k + 1] == toks[pos + 1 + k]);
        assert(whole[k + 1] == inner[k]);
        assert(toks.subrange(pos + 1, pos + 1 + inner.len())[k] == toks[pos + 1 + k]);
    }
    assert(toks.subrange(pos + 1, pos + 1 + inner.len()) =~= inner);
    assert(toks.subrange(pos, pos + inner.len() + 2)[inner.len() as int + 1] == toks[pos
        + inner.len() + 1]);
    assert(whole[inner.len() as int + 1] == seq![close]);
    assert(toks[pos + 1 + inner.len()] == seq![close]);
    lemma_elems_depth_nonneg(es, 0);
    lemma_read_elems_toks(es, 0, toks, pos + 1, close, depth + 1);
    assert(es.skip(0) =~= es);
}

/// Reading printed elements up to their closing delimiter gives back the
/// elements in order.
proof fn lemma_read_elems_toks(
    es: Seq<Form>,
    i: int,
    toks: Seq<Seq<char>>,
    pos: int,
    close: char,
    depth: int,
)
    requires
        0 <= i <= es.len(),
        printable_elems(es, i),
        close == ')' || close == ']',
        0 <= pos,
        pos + elems_toks(es, i).len() + 1 <= toks.len(),
        toks.subrange(pos, pos + elems_toks(es, i).len()) == elems_toks(es, i),
        toks[pos + elems_toks(es, i).len()] == seq![close],
        0 <= depth,
        depth + elems_depth(es, i) <= MAX_DEPTH,
    ensures
        spec_read_seq(toks, pos, close, depth) == Ok::<(Seq<Form>, int), ErrorKind>(
            (es.skip(i), pos + elems_toks(es, i).len() + 1),
        ),
    decreases es, es.len() - i, 1int,
{
    if i >= es.len() {
        assert(elems_toks(es, i).len() == 0);
        assert(toks[pos] == seq![close]);
        assert(es.skip(i) =~= Seq::<Form>::empty());
    } else {
        let ft = form_toks(es[i]);
        let restoks = elems_toks(es, i + 1);
        assert(elems_toks(es, i) == ft + restoks);
        lemma_form_first_token(es[i]);
        assert(toks[pos] == toks.subrange(pos, pos + elems_toks(es, i).len())[0]);
        assert(toks[pos] == ft[0]);
        assert(toks[pos] != seq![close]);
        lemma_form_depth_pos(es[i]);
        lemma_elems_depth_nonneg(es, i + 1);
        assert(form_depth(es[i]) <= elems_depth(es, i));
        assert(toks.subrange(pos, pos + ft.len()) =~~= ft);
        lemma_read_form_toks(es[i], toks, pos, depth);
        let p2 = pos + ft.len();
        assert forall|k: int| 0 <= k < restoks.len() implies toks.subrange(
            p2,
            p2 + restoks.len(),
        )[k] == restoks[k] by {
            assert(elems_toks(es, i)[ft.len() + k] == restoks[k]);
            assert(toks.subrange(pos, pos + elems_toks(es, i).len())[ft.len() + k] == toks[pos
                + ft.len() + k]);
            assert(toks.subrange(p2, p2 + restoks.len())[k] == toks[p2 + k]);
        }
        assert(toks.subrange(p2, p2 + restoks.len()) =~= restoks);
        assert(toks[p2 + restoks.len()] == seq![close]);
        assert(elems_depth(es, i + 1) <= elems_depth(es, i));
        lemma_read_elems_toks(es, i + 1, toks, p2, close, depth);
        assert(seq![es[i]] + es.skip(i + 1) =~= es.skip(i));
    }
}

/// Law: printing and re-reading. For every printable value tree within the
/// reader's nesting budget, reading the printed text gives back exactly the
/// same tree.
pub proof fn lemma_print_read_roundtrip(f: Form)
    requires
        printable(f),
        form_depth(f) <= MAX_DEPTH,
    ensures
        spec_read_str(spec_print(f)) == Ok::<Form, ErrorKind>(f),
{
    lemma_print_tokens(f, Seq::empty());
    assert(spec_print(f) + Seq::<char>::empty() =~= spec_print(f));
    assert(spec_tokens(Seq::<char>::empty()) == Ok::<Seq<Seq<char>>, ErrorKind>(
        Seq::<Seq<char>>::empty(),
    ));
    assert(form_toks(f) + Seq::<Seq<char>>::empty() =~~= form_toks(f));
    lemma_form_depth_pos(f);
    assert(form_toks(f).subrange(0, form_toks(f).len() as int) =~~= form_toks(f));
    lemma_read_form_toks(f, form_toks(f), 0, 0);
}

/// Reading printed element tokens with no closing delimiter ever following
/// runs out of tokens and leaves the collection unterminated.
proof fn lemma_read_elems_toks_eof(
    es: Seq<Form>,
    i: int,
    toks: Seq<Seq<char>>,
    pos: int,
    close: char,
    depth: int,
)
    requires
        0 <= i <= es.len(),
        printable_elems(es, i),
        close == ')' || close == ']',
        0 <= pos,
        pos + elems_toks(es, i).len() == toks.len(),
        toks.subrange(pos, toks.len() as int) == elems_toks(es, i),
        0 <= depth,
        depth + elems_depth(es, i) <= MAX_DEPTH,
    ensures
        spec_read_seq(toks, pos, close, depth) == Err::<(Seq<Form>, int), ErrorKind>(
            ErrorKind::UnterminatedCollection,
        ),
    decreases es, es.len() - i, 1int,
{
    if i < es.len() {
        let ft = form_toks(es[i]);
        let restoks = elems_toks(es, i + 1);
        assert(elems_toks(es, i) == ft + restoks);
        lemma_form_first_token(es[i]);
        assert(toks[pos] == toks.subrange(pos, toks.len() as int)[0]);
        assert(toks[pos] == ft[0]);
        assert(toks[pos] != seq![close]);
        lemma_form_depth_pos(es[i]);
        lemma_elems_depth_nonneg(es, i + 1);
        assert(form_depth(es[i]) <= elems_depth(es, i));
        assert forall|k: int| 0 <= k < ft.len() implies toks.subrange(pos, pos + ft.len())[k]
            == ft[k] by {
            assert(toks.subrange(pos, toks.len() as int)[k] == toks[pos + k]);
            assert(toks.subrange(pos, pos + ft.len())[k] == toks[pos + k]);
        }
        assert(toks.subrange(pos, pos + ft.len()) =~= ft);
        lemma_read_form_toks(es[i], toks, pos, depth);
        let p2 = pos + ft.len();
        assert forall|k: int| 0 <= k < restoks.len() implies toks.subrange(
            p2,
            toks.len() as int,
        )[k] == restoks[k] by {
            assert(elems_toks(es, i)[ft.len() + k] == restoks[k]);
            assert(toks.subrange(pos, toks.len() as int)[ft.len() + k] == toks[pos + ft.len()
                + k]);
            assert(toks.subrange(p2, toks.len() as int)[k] == toks[p2 + k]);
        }
        assert(toks.subrange(p2, toks.len() as int) =~= restoks);
        assert(elems_depth(es, i + 1) <= elems_depth(es, i));
        lemma_read_elems_toks_eof(es, i + 1, toks, p2, close, depth);
    }
}

/// Law: an unclosed collection is rejected. For every printable element
/// sequence within the nesting budget, reading an opening delimiter followed
/// by the printed elements, with the matching close missing, yields
/// `UnterminatedCollection` — never a value and never a partial tree.
pub proof fn lemma_unclosed_collection_rejected(es: Seq<Form>, open: char, close: char)
    requires
        printable_elems(es, 0),
        1 + elems_depth(es, 0) <= MAX_DEPTH,
        open == '(' && close == ')' || open == '[' && close == ']',
    ensures
        spec_read_str(seq![open] + spec_print_elems(es, 0)) == Err::<Form, ErrorKind>(
            ErrorKind::UnterminatedCollection,
        ),
{
    let body = spec_print_elems(es, 0);
    let u = seq![open] + body;
    lemma_print_elems_tokens(es, 0, Seq::empty());
    assert(body + Seq::<char>::empty() =~= body);
    assert(spec_tokens(Seq::<char>::empty()) == Ok::<Seq<Seq<char>>, ErrorKind>(
        Seq::<Seq<char>>::empty(),
    ));
    assert(spec_tokens(body) == Ok::<Seq<Seq<char>>, ErrorKind>(
        elems_toks(es, 0) + Seq::<Seq<char>>::empty(),
    ));
    assert(u[0] == open);
    assert(is_special_char(open) && !is_ws_char(open) && open != ';' && open != '~' && open
        != '"');
    assert(u.subrange(0, 1) =~= seq![open]);
    lemma_tokens_shift(seq![open], body, 0);
    let toks = seq![seq![open]] + (elems_toks(es, 0) + Seq::<Seq<char>>::empty());
    assert(spec_tokens(u) == Ok::<Seq<Seq<char>>, ErrorKind>(toks));
    assert(toks[0] == seq![open]);
    assert(toks[0].len() == 1 && toks[0][0] == open);
    assert forall|k: int| 0 <= k < elems_toks(es, 0).len() implies toks.subrange(
        1,
        toks.len() as int,
    )[k] == elems_toks(es, 0)[k] by {
        assert(toks[1 + k] == elems_toks(es, 0)[k]);
        assert(toks.subrange(1, toks.len() as int)[k] == toks[1 + k]);
    }
    assert(toks.subrange(1, toks.len() as int) =~= elems_toks(es, 0));
    lemma_elems_depth_nonneg(es, 0);
    lemma_read_elems_toks_eof(es, 0, toks, 1, close, 1);
    assert(spec_read_form(toks, 0, 0) == Err::<(Form, int), ErrorKind>(
        ErrorKind::UnterminatedCollection,
    ));
}

// ---------------------------------------------------------------------------
// Values reachable from valid input
// ---------------------------------------------------------------------------

proof fn lemma_cons_elems(g: Form, es: Seq<Form>, j: int)
    requires
        0 <= j,
    ensures
        printable_elems(seq![g] + es, j + 1) == printable_elems(es, j),
        elems_depth(seq![g] + es, j + 1) == elems_depth(es, j),
    decreases es.len() - j,
{
    let ces = seq![g] + es;
    if j < es.len() {
        assert(ces[j + 1] == es[j]);
        lemma_cons_elems(g, es, j + 1);
    }
}

/// A name made of lowercase letters and dashes, other than a reserved word,
/// is a printable symbol.
proof fn lemma_printable_lower_name(nm: Seq<char>)
    requires
        nm.len() >= 1,
        forall|k: int| 0 <= k < nm.len() ==> ('a' <= #[trigger] nm[k] && nm[k] <= 'z' || nm[k]
            == '-'),
        'a' <= nm[0] && nm[0] <= 'z',
        nm != seq!['n', 'i', 'l'],
        nm != seq!['t', 'r', 'u', 'e'],
        nm != seq!['f', 'a', 'l', 's', 'e'],
    ensures
        printable_symbol(nm),
{
    assert(forall|k: int| 0 <= k < nm.len() ==> is_symbol_char(#[trigger] nm[k]));
    assert(numeric_body(nm) == nm);
    assert(!is_digit_or_dot_char(nm[0]));
    assert(!is_numeric_token(nm));
}

/// The expansion symbols of the quoting markers are printable.
proof fn lemma_quote_names_printable()
    ensures
        printable(Form::Symbol(seq!['q', 'u', 'o', 't', 'e'])),
        printable(Form::Symbol(seq!['u', 'n', 'q', 'u', 'o', 't', 'e'])),
        printable(
            Form::Symbol(
                seq!['s', 'p', 'l', 'i', 'c', 'e', '-', 'u', 'n', 'q', 'u', 'o', 't', 'e'],
            ),
        ),
        printable(Form::Symbol(seq!['q', 'u', 'a', 's', 'i', 'q', 'u', 'o', 't', 'e'])),
        printable(Form::Symbol(seq!['d', 'e', 'r', 'e', 'f'])),
{
    let n1 = seq!['q', 'u', 'o', 't', 'e'];
    assert(n1[0] != 'n' && n1[0] != 't' && n1[0] != 'f');
    lemma_printable_lower_name(n1);
    let n2 = seq!['u', 'n', 'q', 'u', 'o', 't', 'e'];
    assert(n2[0] != 'n' && n2[0] != 't' && n2[0] != 'f');
    lemma_printable_lower_name(n2);
    let n3 = seq!['s', 'p', 'l', 'i', 'c', 'e', '-', 'u', 'n', 'q', 'u', 'o', 't', 'e'];
    assert(n3[0] != 'n' && n3[0] != 't' && n3[0] != 'f');
    lemma_printable_lower_name(n3);
    let n4 = seq!['q', 'u', 'a', 's', 'i', 'q', 'u', 'o', 't', 'e'];
    assert(n4[0] != 'n' && n4[0] != 't' && n4[0] != 'f');
    lemma_printable_lower_name(n4);
    let n5 = seq!['d', 'e', 'r', 'e', 'f'];
    assert(n5[0] != 'n' && n5[0] != 't' && n5[0] != 'f');
    lemma_printable_lower_name(n5);
}

/// The two-element expansion list of a quoting marker, seen as reachable
/// output: printable when its inner form is, one level deeper than it.
proof fn lemma_quote_expansion(nm: Seq<char>, inner: Form)
    requires
        printable(Form::Symbol(nm)),
    ensures
        ({
            let es = seq![Form::Symbol(nm), inner];
            &&& (printable(inner) ==> printable_elems(es, 0))
            &&& (form_depth(inner) >= 1 ==> form_depth(Form::List(es)) == 1 + form_depth(inner))
        }),
{
    let sym = Form::Symbol(nm);
    let es = seq![Form::Symbol(nm), inner];
    assert(es =~= seq![sym] + seq![inner]);
    lemma_cons_elems(sym, seq![inner], 0);
    assert(seq![inner][0] == inner);
    assert(es[0] == sym);
    assert(printable_elems(seq![inner], 1));
    assert(printable_elems(seq![inner], 0) == printable(inner));
    assert(printable_elems(es, 1) == printable(inner));
    assert(printable_elems(es, 0) == (printable(sym) && printable_elems(es, 1)));
    lemma_form_depth_pos(inner);
    assert(elems_depth(seq![inner], 1) == 0);
    assert(elems_depth(seq![inner], 0) == form_depth(inner));
    assert(elems_depth(es, 1) == form_depth(inner));
    assert(form_depth(sym) == 1);
    assert(elems_depth(es, 0) == (if 1 >= form_depth(inner) {
        1int
    } else {
        form_depth(inner)
    }));
    assert(form_depth(Form::List(es)) == 1 + elems_depth(es, 0));
}

/// Reading well-formed tokens yields only printable trees, and only trees
/// within the remaining depth budget.
proof fn lemma_read_form_printable(toks: Seq<Seq<char>>, pos: int, depth: int)
    requires
        forall|k: int| 0 <= k < toks.len() ==> wf_token(#[trigger] toks[k]),
        0 <= depth,
    ensures
        spec_read_form(toks, pos, depth) matches Ok((f, p)) ==> {
            &&& printable(f)
            &&& depth + form_depth(f) <= MAX_DEPTH
        },
    decreases toks.len() - pos, 1int,
{
    if 0 <= pos < toks.len() && depth < MAX_DEPTH {
        let t = toks[pos];
        assert(wf_token(t));
        if t.len() == 0 {
        } else if t[0] == '(' || t[0] == '[' {
            let close = if t[0] == '(' {
                ')'
            } else {
                ']'
            };
            lemma_read_seq_printable(toks, pos + 1, close, depth + 1);
            match spec_read_seq(toks, pos + 1, close, depth + 1) {
                Ok((es, q)) => {
                    lemma_elems_depth_nonneg(es, 0);
                },
                Err(_) => {},
            }
        } else if t[0] == '"' {
        } else if t[0] == ':' {
            assert(t != seq!['~'] && t != seq!['~', '@'] && !(t.len() == 1 && is_special_char(
                t[0],
            )));
            assert(forall|k: int| 0 <= k < t.len() ==> is_symbol_char(#[trigger] t[k]));
            let kw = t.skip(1);
            assert(forall|k: int| 0 <= k < kw.len() ==> kw[k] == t[k + 1]);
            assert(printable_keyword(kw));
        } else if t[0] == '\'' || t[0] == '~' || t[0] == '`' || t[0] == '@' {
            lemma_read_form_printable(toks, pos + 1, depth + 1);
            lemma_quote_names_printable();
            match spec_read_form(toks, pos + 1, depth + 1) {
                Ok((inner, q)) => {
                    let nm = if t[0] == '\'' {
                        seq!['q', 'u', 'o', 't', 'e']
                    } else if t[0] == '`' {
                        seq!['q', 'u', 'a', 's', 'i', 'q', 'u', 'o', 't', 'e']
                    } else if t[0] == '@' {
                        seq!['d', 'e', 'r', 'e', 'f']
                    } else if t == seq!['~', '@'] {
                        seq!['s', 'p', 'l', 'i', 'c', 'e', '-', 'u', 'n', 'q', 'u', 'o', 't', 'e']
                    } else {
                        seq!['u', 'n', 'q', 'u', 'o', 't', 'e']
                    };
                    lemma_quote_expansion(nm, inner);
                    lemma_form_depth_pos(inner);
                },
                Err(_) => {},
            }
        } else if is_illegal_token_start(t[0]) {
        } else {
            crate::reader::lemma_read_atom_number_range(t);
            match spec_read_atom(t) {
                Ok(f) => {
                    match f {
                        Form::Symbol(s2) => {
                            assert(t != seq!['~'] && t != seq!['~', '@']);
                            assert(!(t.len() == 1 && is_special_char(t[0])));
                            assert(forall|k: int|
                                0 <= k < t.len() ==> is_symbol_char(#[trigger] t[k]));
                            assert(printable_symbol(t));
                        },
                        _ => {},
                    }
                },
                Err(_) => {},
            }
        }
    }
}

/// Reading a well-formed token sequence up to a close delimiter yields only
/// printable elements within the depth budget.
proof fn lemma_read_seq_printable(toks: Seq<Seq<char>>, pos: int, close: char, depth: int)
    requires
        forall|k: int| 0 <= k < toks.len() ==> wf_token(#[trigger] toks[k]),
        0 <= depth <= MAX_DEPTH,
    ensures
        spec_read_seq(toks, pos, close, depth) matches Ok((es, q)) ==> {
            &&& printable_elems(es, 0)
            &&& depth + elems_depth(es, 0) <= MAX_DEPTH
        },
    decreases toks.len() - pos, 2int,
{
    if 0 <= pos < toks.len() && toks[pos] != seq![close] {
        lemma_read_form_printable(toks, pos, depth);
        lemma_read_form_progress(toks, pos, depth);
        match spec_read_form(toks, pos, depth) {
            Ok((f, p)) => {
                let p2 = if pos < p <= toks.len() {
                    p
                } else {
                    pos + 1
                };
                lemma_read_seq_printable(toks, p2, close, depth);
                match spec_read_seq(toks, p2, close, depth) {
                    Ok((es2, q)) => {
                        let es = seq![f] + es2;
                        lemma_cons_elems(f, es2, 0);
                        assert(es[0] == f);
                        lemma_form_depth_pos(f);
                        lemma_elems_depth_nonneg(es2, 0);
                    },
                    Err(_) => {},
                }
            },
            Err(_) => {},
        }
    }
}

/// Law: the full round trip over reachable values. Whatever tree reading a
/// valid input yields, printing that tree and reading the printed text
/// yields the same tree again.
pub proof fn lemma_read_print_read_roundtrip(s: Seq<char>)
    ensures
        spec_read_str(s) matches Ok(f) ==> spec_read_str(spec_print(f)) == Ok::<Form, ErrorKind>(
            f,
        ),
{
    match spec_tokens(s) {
        Err(_) => {},
        Ok(toks) => {
            lemma_tokens_wf(s, 0);
            lemma_read_form_printable(toks, 0, 0);
            match spec_read_form(toks, 0, 0) {
                Ok((f, p)) => {
                    lemma_form_depth_pos(f);
                    lemma_print_read_roundtrip(f);
                },
                Err(_) => {},
            }
        },
    }
}
} // verus!
