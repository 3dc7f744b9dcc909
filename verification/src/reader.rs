use vstd::prelude::*;

use crate::mal_types::ErrorKind;
use crate::mal_types::Form;
use crate::mal_types::MalError;
use crate::mal_types::MalResult;
use crate::mal_types::MalType;
use crate::mal_types::forms_of;
use crate::mal_types::lemma_collection_view;
use crate::mal_types::lemma_forms_of_push;

verus! {

broadcast use vstd::std_specs::vec::group_vec_axioms, vstd::seq::group_seq_axioms;

// ---------------------------------------------------------------------------
// Character classification
// ---------------------------------------------------------------------------

/// Whitespace is skipped before every token; commas count as whitespace.
pub open spec fn is_ws_char(c: char) -> bool {
    c == ' ' || c == '\t' || c == '\n' || c == '\r' || c == ','
}

/// Characters that form a one-character token when they start a token.
pub open spec fn is_special_char(c: char) -> bool {
    c == '(' || c == ')' || c == '[' || c == ']' || c == '{' || c == '}' || c == '\'' || c == '`'
        || c == '^' || c == '@'
}

/// Characters that may continue a symbol-like token: everything except
/// whitespace, delimiters, the quote characters and the comment marker.
pub open spec fn is_symbol_char(c: char) -> bool {
    !is_ws_char(c) && c != '(' && c != ')' && c != '[' && c != ']' && c != '{' && c != '}'
        && c != '\'' && c != '"' && c != '`' && c != ';'
}

fn ws_char(c: char) -> (r: bool)
    ensures
        r == is_ws_char(c),
{
    c == ' ' || c == '\t' || c == '\n' || c == '\r' || c == ','
}

fn special_char(c: char) -> (r: bool)
    ensures
        r == is_special_char(c),
{
    c == '(' || c == ')' || c == '[' || c == ']' || c == '{' || c == '}' || c == '\'' || c == '`'
        || c == '^' || c == '@'
}

fn symbol_char(c: char) -> (r: bool)
    ensures
        r == is_symbol_char(c),
{
    !(c == ' ' || c == '\t' || c == '\n' || c == '\r' || c == ',') && c != '(' && c != ')'
        && c != '[' && c != ']' && c != '{' && c != '}' && c != '\'' && c != '"' && c != '`'
        && c != ';'
}

// ---------------------------------------------------------------------------
// The token grammar, as scanning functions over the character sequence
// ---------------------------------------------------------------------------

/// Index just past a comment that starts at or before `i`: the first position
/// at or after `i` holding a newline, or the end of the input.
pub open spec fn scan_comment(s: Seq<char>, i: int) -> int
    decreases s.len() - i,
{
    if i >= s.len() {
        i
    } else if s[i] == '\n' {
        i
    } else {
        scan_comment(s, i + 1)
    }
}

/// Index just past the symbol-like token whose characters start at `i`.
pub open spec fn scan_symbol(s: Seq<char>, i: int) -> int
    decreases s.len() - i,
{
    if i >= s.len() {
        i
    } else if !is_symbol_char(s[i]) {
        i
    } else {
        scan_symbol(s, i + 1)
    }
}

/// Position of the closing quote of a string literal whose contents start at
/// `i`, or `None` when the input ends first, a raw newline appears, or a
/// backslash has nothing legal to escape.
pub open spec fn scan_string(s: Seq<char>, i: int) -> Option<int>
    decreases s.len() - i,
{
    if i >= s.len() {
        None
    } else if s[i] == '"' {
        Some(i)
    } else if s[i] == '\n' {
        None
    } else if s[i] == '\\' {
        if i + 1 >= s.len() || s[i + 1] == '\n' {
            None
        } else {
            scan_string(s, i + 2)
        }
    } else {
        scan_string(s, i + 1)
    }
}

pub proof fn lemma_scan_comment_bounds(s: Seq<char>, i: int)
    requires
        i <= s.len(),
    ensures
        i <= scan_comment(s, i) <= s.len(),
    decreases s.len() - i,
{
    if i < s.len() && s[i] != '\n' {
        lemma_scan_comment_bounds(s, i + 1);
    }
}

pub proof fn lemma_scan_symbol_bounds(s: Seq<char>, i: int)
    requires
        i <= s.len(),
    ensures
        i <= scan_symbol(s, i) <= s.len(),
    decreases s.len() - i,
{
    if i < s.len() && is_symbol_char(s[i]) {
        lemma_scan_symbol_bounds(s, i + 1);
    }
}

pub proof fn lemma_scan_string_bounds(s: Seq<char>, i: int)
    ensures
        scan_string(s, i) matches Some(k) ==> i <= k < s.len() && s[k] == '"',
    decreases s.len() - i,
{
    if i < s.len() && s[i] != '"' && s[i] != '\n' {
        if s[i] == '\\' {
            if i + 1 < s.len() && s[i + 1] != '\n' {
                lemma_scan_string_bounds(s, i + 2);
            }
        } else {
            lemma_scan_string_bounds(s, i + 1);
        }
    }
}

/// The token sequence of the input from position `i` on, or the error that
/// scanning stops at. Whitespace and comments yield no token; a string
/// literal is one token including both quotes, with its escapes still raw.
pub open spec fn spec_tokens_from(s: Seq<char>, i: int) -> Result<Seq<Seq<char>>, ErrorKind>
    decreases s.len() - i,
{
    if i < 0 || i >= s.len() {
        Ok(Seq::empty())
    } else if is_ws_char(s[i]) {
        spec_tokens_from(s, i + 1)
    } else if s[i] == ';' {
        proof {
            lemma_scan_comment_bounds(s, i + 1);
        }
        spec_tokens_from(s, scan_comment(s, i + 1))
    } else if s[i] == '~' {
        if i + 1 < s.len() && s[i + 1] == '@' {
            match spec_tokens_from(s, i + 2) {
                Ok(ts) => Ok(seq![s.subrange(i, i + 2)] + ts),
                Err(k) => Err(k),
            }
        } else {
            match spec_tokens_from(s, i + 1) {
                Ok(ts) => Ok(seq![s.subrange(i, i + 1)] + ts),
                Err(k) => Err(k),
            }
        }
    } else if is_special_char(s[i]) {
        match spec_tokens_from(s, i + 1) {
            Ok(ts) => Ok(seq![s.subrange(i, i + 1)] + ts),
            Err(k) => Err(k),
        }
    } else if s[i] == '"' {
        match scan_string(s, i + 1) {
            None => Err(ErrorKind::UnterminatedString),
            Some(k) => {
                proof {
                    lemma_scan_string_bounds(s, i + 1);
                }
                match spec_tokens_from(s, k + 1) {
                    Ok(ts) => Ok(seq![s.subrange(i, k + 1)] + ts),
                    Err(e) => Err(e),
                }
            },
        }
    } else {
        proof {
            lemma_scan_symbol_bounds(s, i + 1);
        }
        match spec_tokens_from(s, scan_symbol(s, i + 1)) {
            Ok(ts) => Ok(seq![s.subrange(i, scan_symbol(s, i + 1))] + ts),
            Err(k) => Err(k),
        }
    }
}

/// The token sequence of a whole input, or the scanning error.
pub open spec fn spec_tokens(s: Seq<char>) -> Result<Seq<Seq<char>>, ErrorKind> {
    spec_tokens_from(s, 0)
}

// ---------------------------------------------------------------------------
// Trusted bridge between text and character vectors
// ---------------------------------------------------------------------------

/// Relies on str::chars: it yields exactly the characters of the string, in
/// order, which is also what the view of a `str` holds.
#[verifier::external_body]
pub(crate) fn str_chars(s: &str) -> (r: Vec<char>)
    ensures
        r@ == s@,
{
    s.chars().collect()
}

/// Relies on String's FromIterator impl over char: collecting characters
/// builds the string of exactly those characters, in order.
#[verifier::external_body]
pub(crate) fn chars_to_string(v: Vec<char>) -> (r: String)
    ensures
        r@ == v@,
{
    v.into_iter().collect()
}

/// The string holding the characters `chars[from .. to]`.
fn substring_of(chars: &Vec<char>, from: usize, to: usize) -> (r: String)
    requires
        from <= to <= chars@.len(),
    ensures
        r@ == chars@.subrange(from as int, to as int),
{
    let mut out: Vec<char> = Vec::new();
    let mut j: usize = from;
    while j < to
        invariant
            from <= j <= to <= chars@.len(),
            out@ == chars@.subrange(from as int, j as int),
        decreases to - j,
    {
        out.push(chars[j]);
        proof {
            assert(out@ =~= chars@.subrange(from as int, j + 1 as int));
        }
        j = j + 1;
    }
    chars_to_string(out)
}

// ---------------------------------------------------------------------------
// The tokenizer
// ---------------------------------------------------------------------------

/// The character sequences of a vector of tokens.
pub open spec fn toks_view(ts: Seq<String>) -> Seq<Seq<char>> {
    ts.map_values(|t: String| t@)
}

proof fn lemma_toks_view_push(ts: Seq<String>, t: String)
    ensures
        toks_view(ts.push(t)) == toks_view(ts).push(t@),
{
    assert(toks_view(ts.push(t)) =~= toks_view(ts).push(t@));
}

/// Scans the whole input into its token sequence, or reports the scanning
/// error. Whitespace and comments are skipped and produce no token.
pub fn tokenizer(code: &str) -> (r: Result<Vec<String>, MalError>)
    ensures
        match spec_tokens(code@) {
            Ok(ts) => r matches Ok(v) && toks_view(v@) == ts,
            Err(k) => r matches Err(e) && e == MalError(k),
        },
{
    let chars = str_chars(code);
    let ghost s = code@;
    let n = chars.len();
    let mut toks: Vec<String> = Vec::new();
    let mut i: usize = 0;
    while i < n
        invariant
            s == code@,
            n == s.len(),
            chars@ == s,
            i <= n,
            spec_tokens(s) == match spec_tokens_from(s, i as int) {
                Ok(ts) => Ok::<Seq<Seq<char>>, ErrorKind>(toks_view(toks@) + ts),
                Err(k) => Err::<Seq<Seq<char>>, ErrorKind>(k),
            },
        decreases n - i,
    {
        let c = chars[i];
        if ws_char(c) {
            i = i + 1;
        } else if c == ';' {
            let mut j: usize = i + 1;
            while j < n && chars[j] != '\n'
                invariant
                    n == s.len(),
                    chars@ == s,
                    i + 1 <= j <= n,
                    scan_comment(s, i + 1) == scan_comment(s, j as int),
                decreases n - j,
            {
                j = j + 1;
            }
            proof {
                assert(scan_comment(s, j as int) == j);
            }
            i = j;
        } else if c == '~' {
            let j = if i + 1 < n && chars[i + 1] == '@' {
                i + 2
            } else {
                i + 1
            };
            let t = substring_of(&chars, i, j);
            proof {
                lemma_toks_view_push(toks@, t);
                match spec_tokens_from(s, j as int) {
                    Ok(ts2) => {
                        assert(toks_view(toks@).push(t@) + ts2 =~= toks_view(toks@) + (seq![t@]
                            + ts2));
                    },
                    Err(_) => {},
                }
            }
            toks.push(t);
            i = j;
        } else if special_char(c) {
            let t = substring_of(&chars, i, i + 1);
            proof {
                lemma_toks_view_push(toks@, t);
                match spec_tokens_from(s, i + 1) {
                    Ok(ts2) => {
                        assert(toks_view(toks@).push(t@) + ts2 =~= toks_view(toks@) + (seq![t@]
                            + ts2));
                    },
                    Err(_) => {},
                }
            }
            toks.push(t);
            i = i + 1;
        } else if c == '"' {
            let mut j: usize = i + 1;
            loop
                invariant
                    s == code@,
                    n == s.len(),
                    chars@ == s,
                    i + 1 <= j <= n,
                    scan_string(s, i + 1) == scan_string(s, j as int),
                    spec_tokens(s) == match spec_tokens_from(s, i as int) {
                        Ok(ts) => Ok::<Seq<Seq<char>>, ErrorKind>(toks_view(toks@) + ts),
                        Err(k) => Err::<Seq<Seq<char>>, ErrorKind>(k),
                    },
                    i < n,
                    s[i as int] == '"',
                    !is_ws_char(s[i as int]),
                ensures
                    i + 1 <= j < n,
                    s[j as int] == '"',
                    scan_string(s, i + 1) == Some(j as int),
                decreases n - j,
            {
                if j >= n {
                    proof {
                        assert(scan_string(s, j as int) is None);
                        assert(spec_tokens_from(s, i as int) == Result::<
                            Seq<Seq<char>>,
                            ErrorKind,
                        >::Err(ErrorKind::UnterminatedString));
                    }
                    return Err(MalError(ErrorKind::UnterminatedString));
                }
                let cj = chars[j];
                if cj == '"' {
                    proof {
                        assert(scan_string(s, j as int) == Some(j as int));
                    }
                    break;
                } else if cj == '\n' {
                    proof {
                        assert(scan_string(s, j as int) is None);
                        assert(spec_tokens_from(s, i as int) == Result::<
                            Seq<Seq<char>>,
                            ErrorKind,
                        >::Err(ErrorKind::UnterminatedString));
                    }
                    return Err(MalError(ErrorKind::UnterminatedString));
                } else if cj == '\\' {
                    if j + 1 >= n || chars[j + 1] == '\n' {
                        proof {
                            assert(scan_string(s, j as int) is None);
                            assert(spec_tokens_from(s, i as int) == Result::<
                                Seq<Seq<char>>,
                                ErrorKind,
                            >::Err(ErrorKind::UnterminatedString));
                        }
                        return Err(MalError(ErrorKind::UnterminatedString));
                    }
                    j = j + 2;
                } else {
                    j = j + 1;
                }
            }
            let t = substring_of(&chars, i, j + 1);
            proof {
                lemma_toks_view_push(toks@, t);
                match spec_tokens_from(s, j + 1 as int) {
                    Ok(ts2) => {
                        assert(toks_view(toks@).push(t@) + ts2 =~= toks_view(toks@) + (seq![t@]
                            + ts2));
                    },
                    Err(_) => {},
                }
            }
            toks.push(t);
            i = j + 1;
        } else {
            let mut j: usize = i + 1;
            while j < n && symbol_char(chars[j])
                invariant
                    n == s.len(),
                    chars@ == s,
                    i + 1 <= j <= n,
                    scan_symbol(s, i + 1) == scan_symbol(s, j as int),
                decreases n - j,
            {
                j = j + 1;
            }
            proof {
                assert(scan_symbol(s, j as int) == j);
            }
            let t = substring_of(&chars, i, j);
            proof {
                lemma_toks_view_push(toks@, t);
                match spec_tokens_from(s, j as int) {
                    Ok(ts2) => {
                        assert(toks_view(toks@).push(t@) + ts2 =~= toks_view(toks@) + (seq![t@]
                            + ts2));
                    },
                    Err(_) => {},
                }
            }
            toks.push(t);
            i = j;
        }
    }
    Ok(toks)
}

// ---------------------------------------------------------------------------
// The reader's grammar over the token sequence
// ---------------------------------------------------------------------------

/// The reader refuses to nest deeper than this many collection or quote
/// levels, so that adversarial input cannot exhaust the native stack.
pub const MAX_DEPTH: usize = 500;

/// A resolved escape: the newline escape becomes the control character, any
/// other escaped character stands for itself.
pub open spec fn unescaped_char(c: char) -> char {
    if c == 'n' {
        '\n'
    } else {
        c
    }
}

/// The text of a string token from position `j` on: characters up to the
/// first unescaped closing quote, with escapes resolved. Running out of
/// characters first means the literal was never terminated.
pub open spec fn spec_unescape_from(t: Seq<char>, j: int) -> Result<Seq<char>, ErrorKind>
    decreases t.len() - j,
{
    if j < 0 || j >= t.len() {
        Err(ErrorKind::UnterminatedString)
    } else if t[j] == '"' {
        Ok(Seq::empty())
    } else if t[j] == '\\' {
        if j + 1 >= t.len() {
            Err(ErrorKind::UnterminatedString)
        } else {
            match spec_unescape_from(t, j + 2) {
                Ok(cs) => Ok(seq![unescaped_char(t[j + 1])] + cs),
                Err(k) => Err(k),
            }
        }
    } else {
        match spec_unescape_from(t, j + 1) {
            Ok(cs) => Ok(seq![t[j]] + cs),
            Err(k) => Err(k),
        }
    }
}

/// The text denoted by a whole string token, whose first character is the
/// opening quote.
pub open spec fn spec_unescape(t: Seq<char>) -> Result<Seq<char>, ErrorKind> {
    spec_unescape_from(t, 1)
}

pub open spec fn is_digit_char(c: char) -> bool {
    48 <= c as int && c as int <= 57
}

pub open spec fn is_digit_or_dot_char(c: char) -> bool {
    is_digit_char(c) || c == '.'
}

pub open spec fn digit_val(c: char) -> int {
    c as int - 48
}

/// The integer denoted by a sequence of decimal digits.
pub open spec fn digits_val(ds: Seq<char>) -> int
    decreases ds.len(),
{
    if ds.len() == 0 {
        0
    } else {
        digits_val(ds.drop_last()) * 10 + digit_val(ds.last())
    }
}

/// The token without its sign: what must be made of digits for the token to
/// denote a number.
pub open spec fn numeric_body(t: Seq<char>) -> Seq<char> {
    if t.len() > 0 && t[0] == '-' {
        t.skip(1)
    } else {
        t
    }
}

/// A token that looks numeric: an optional minus sign followed by at least
/// one digit or dot. Such a token either denotes a 64-bit integer or is a
/// malformed number; it is never a symbol.
pub open spec fn is_numeric_token(t: Seq<char>) -> bool {
    t.len() > 0 && numeric_body(t).len() > 0 && (forall|k: int|
        0 <= k < numeric_body(t).len() ==> is_digit_or_dot_char(#[trigger] numeric_body(t)[k]))
}

/// Resolution of a non-structural token: numeric-looking tokens must denote
/// an `i64`, the reserved words denote literals, anything else is a symbol.
pub open spec fn spec_read_atom(t: Seq<char>) -> Result<Form, ErrorKind> {
    if is_numeric_token(t) {
        let body = numeric_body(t);
        if forall|k: int| 0 <= k < body.len() ==> is_digit_char(#[trigger] body[k]) {
            let m = digits_val(body);
            if t[0] == '-' {
                if -m >= i64::MIN {
                    Ok(Form::Number(-m))
                } else {
                    Err(ErrorKind::MalformedNumber)
                }
            } else {
                if m <= i64::MAX {
                    Ok(Form::Number(m))
                } else {
                    Err(ErrorKind::MalformedNumber)
                }
            }
        } else {
            Err(ErrorKind::MalformedNumber)
        }
    } else if t == seq!['n', 'i', 'l'] {
        Ok(Form::Nil)
    } else if t == seq!['t', 'r', 'u', 'e'] {
        Ok(Form::Bool(true))
    } else if t == seq!['f', 'a', 'l', 's', 'e'] {
        Ok(Form::Bool(false))
    } else {
        Ok(Form::Symbol(t))
    }
}

/// A token that closes no structure and resolves to no atom.
pub open spec fn is_illegal_token_start(c: char) -> bool {
    c == ')' || c == ']' || c == '{' || c == '}' || c == '^'
}

/// One form read from the token sequence, beginning at token `pos` at the
/// given nesting depth: the form's model and the position of the first token
/// after it, or the error that reading stops at.
pub open spec fn spec_read_form(toks: Seq<Seq<char>>, pos: int, depth: int) -> Result<
    (Form, int),
    ErrorKind,
>
    decreases toks.len() - pos, 1int,
{
    if pos < 0 || pos >= toks.len() {
        Err(ErrorKind::UnexpectedEndOfInput)
    } else if depth >= MAX_DEPTH {
        Err(ErrorKind::DepthLimitExceeded)
    } else {
        let t = toks[pos];
        if t.len() == 0 {
            Err(ErrorKind::UnexpectedEndOfInput)
        } else if t[0] == '(' {
            match spec_read_seq(toks, pos + 1, ')', depth + 1) {
                Ok((es, q)) => Ok((Form::List(es), q)),
                Err(k) => Err(k),
            }
        } else if t[0] == '[' {
            match spec_read_seq(toks, pos + 1, ']', depth + 1) {
                Ok((es, q)) => Ok((Form::Vector(es), q)),
                Err(k) => Err(k),
            }
        } else if t[0] == '"' {
            match spec_unescape(t) {
                Ok(cs) => Ok((Form::Str(cs), pos + 1)),
                Err(k) => Err(k),
            }
        } else if t[0] == ':' {
            Ok((Form::Keyword(t.skip(1)), pos + 1))
        } else if t[0] == '\'' {
            spec_read_quote(toks, pos, depth, seq!['q', 'u', 'o', 't', 'e'])
        } else if t[0] == '~' {
            if t == seq!['~', '@'] {
                spec_read_quote(
                    toks,
                    pos,
                    depth,
                    seq!['s', 'p', 'l', 'i', 'c', 'e', '-', 'u', 'n', 'q', 'u', 'o', 't', 'e'],
                )
            } else {
                spec_read_quote(toks, pos, depth, seq!['u', 'n', 'q', 'u', 'o', 't', 'e'])
            }
        } else if t[0] == '`' {
            spec_read_quote(
                toks,
                pos,
                depth,
                seq!['q', 'u', 'a', 's', 'i', 'q', 'u', 'o', 't', 'e'],
            )
        } else if t[0] == '@' {
            spec_read_quote(toks, pos, depth, seq!['d', 'e', 'r', 'e', 'f'])
        } else if is_illegal_token_start(t[0]) {
            Err(ErrorKind::IllegalCharacter)
        } else {
            match spec_read_atom(t) {
                Ok(f) => Ok((f, pos + 1)),
                Err(k) => Err(k),
            }
        }
    }
}

/// A quoting marker expands to a two-element list whose head is the marker's
/// expansion symbol and whose second element is the one form that follows.
pub open spec fn spec_read_quote(
    toks: Seq<Seq<char>>,
    pos: int,
    depth: int,
    name: Seq<char>,
) -> Result<(Form, int), ErrorKind>
    decreases toks.len() - pos, 0int,
{
    if pos < 0 || pos >= toks.len() {
        Err(ErrorKind::UnexpectedEndOfInput)
    } else {
        match spec_read_form(toks, pos + 1, depth + 1) {
            Ok((f, q)) => Ok((Form::List(seq![Form::Symbol(name), f]), q)),
            Err(k) => Err(k),
        }
    }
}

/// Zero or more forms up to and including the closing delimiter `close`.
/// Running out of tokens first leaves the collection unterminated.
pub open spec fn spec_read_seq(
    toks: Seq<Seq<char>>,
    pos: int,
    close: char,
    depth: int,
) -> Result<(Seq<Form>, int), ErrorKind>
    decreases toks.len() - pos, 2int,
{
    if pos < 0 || pos >= toks.len() {
        Err(ErrorKind::UnterminatedCollection)
    } else if toks[pos] == seq![close] {
        Ok((Seq::empty(), pos + 1))
    } else {
        match spec_read_form(toks, pos, depth) {
            Err(k) => Err(k),
            Ok((f, p)) => {
                let p2 = if pos < p <= toks.len() {
                    p
                } else {
                    pos + 1
                };
                match spec_read_seq(toks, p2, close, depth) {
                    Ok((es, q)) => Ok((seq![f] + es, q)),
                    Err(k) => Err(k),
                }
            },
        }
    }
}

/// A successful read always consumes at least one token and never moves past
/// the end of the token sequence.
pub proof fn lemma_read_form_progress(toks: Seq<Seq<char>>, pos: int, depth: int)
    ensures
        spec_read_form(toks, pos, depth) matches Ok((f, p)) ==> pos < p <= toks.len(),
    decreases toks.len() - pos, 1int,
{
    if 0 <= pos < toks.len() && depth < MAX_DEPTH {
        let t = toks[pos];
        if t.len() > 0 {
            if t[0] == '(' {
                lemma_read_seq_progress(toks, pos + 1, ')', depth + 1);
            } else if t[0] == '[' {
                lemma_read_seq_progress(toks, pos + 1, ']', depth + 1);
            } else if t[0] == '"' || t[0] == ':' {
            } else if t[0] == '\'' || t[0] == '~' || t[0] == '`' || t[0] == '@' {
                lemma_read_form_progress(toks, pos + 1, depth + 1);
            }
        }
    }
}

/// A successfully read collection consumes at least its closing delimiter.
pub proof fn lemma_read_seq_progress(toks: Seq<Seq<char>>, pos: int, close: char, depth: int)
    ensures
        spec_read_seq(toks, pos, close, depth) matches Ok((es, q)) ==> pos < q <= toks.len(),
    decreases toks.len() - pos, 2int,
{
    if 0 <= pos < toks.len() && toks[pos] != seq![close] {
        lemma_read_form_progress(toks, pos, depth);
        match spec_read_form(toks, pos, depth) {
            Ok((f, p)) => {
                let p2 = if pos < p <= toks.len() {
                    p
                } else {
                    pos + 1
                };
                lemma_read_seq_progress(toks, p2, close, depth);
            },
            Err(_) => {},
        }
    }
}

/// What `read_str` returns on any input: the first form of the token
/// sequence, or the scanning or reading error.
pub open spec fn spec_read_str(s: Seq<char>) -> Result<Form, ErrorKind> {
    match spec_tokens(s) {
        Err(k) => Err(k),
        Ok(toks) => match spec_read_form(toks, 0, 0) {
            Ok((f, p)) => Ok(f),
            Err(k) => Err(k),
        },
    }
}

// ---------------------------------------------------------------------------
// The reader: a token cursor with one-token lookahead
// ---------------------------------------------------------------------------

/// A parse cursor over the scanned tokens. It is consumed from front to back
/// by `next` and inspected by `peek`; `read_form` drives it to the end of one
/// form.
pub struct Reader {
    tokens: Vec<String>,
    position: usize,
}

impl Reader {
    /// The tokens' character sequences.
    pub closed spec fn toks(&self) -> Seq<Seq<char>> {
        toks_view(self.tokens@)
    }

    /// The cursor: how many tokens have been consumed.
    pub closed spec fn pos(&self) -> int {
        self.position as int
    }

    /// The cursor never points past the end of the tokens.
    pub open spec fn wf(&self) -> bool {
        self.pos() <= self.toks().len()
    }

    /// The current token, if any, without consuming it.
    pub fn peek(&self) -> (r: Option<String>)
        ensures
            match r {
                Some(t) => self.pos() < self.toks().len() && t@ == self.toks()[self.pos()],
                None => self.pos() >= self.toks().len(),
            },
    {
        if self.tokens.len() > self.position {
            Some(self.tokens[self.position].clone())
        } else {
            None
        }
    }

    /// The current token, if any, consuming it.
    pub fn next(&mut self) -> (r: Option<String>)
        ensures
            final(self).toks() == old(self).toks(),
            match r {
                Some(t) => {
                    &&& old(self).pos() < old(self).toks().len()
                    &&& t@ == old(self).toks()[old(self).pos()]
                    &&& final(self).pos() == old(self).pos() + 1
                },
                None => old(self).pos() >= old(self).toks().len() && final(self).pos() == old(
                    self,
                ).pos(),
            },
    {
        if self.position < self.tokens.len() {
            let token = self.peek();
            self.position = self.position + 1;
            token
        } else {
            None
        }
    }
}


// ---------------------------------------------------------------------------
// Number recognition
// ---------------------------------------------------------------------------

proof fn lemma_digits_val_nonneg(ds: Seq<char>)
    requires
        forall|k: int| 0 <= k < ds.len() ==> is_digit_char(#[trigger] ds[k]),
    ensures
        digits_val(ds) >= 0,
    decreases ds.len(),
{
    if ds.len() > 0 {
        lemma_digits_val_nonneg(ds.drop_last());
    }
}

/// A digit sequence denotes at least as much as any of its prefixes.
proof fn lemma_digits_val_prefix(ds: Seq<char>, i: int)
    requires
        0 <= i <= ds.len(),
        forall|k: int| 0 <= k < ds.len() ==> is_digit_char(#[trigger] ds[k]),
    ensures
        digits_val(ds.take(i)) <= digits_val(ds),
    decreases ds.len(),
{
    if i < ds.len() {
        let dl = ds.drop_last();
        assert(ds.take(i) =~= dl.take(i));
        lemma_digits_val_prefix(dl, i);
        lemma_digits_val_nonneg(dl);
    } else {
        assert(ds.take(i) =~= ds);
    }
}

/// The numeric value of one decimal digit character.
fn digit_of(c: char) -> (d: u64)
    requires
        is_digit_char(c),
    ensures
        d as int == digit_val(c),
{
    if c == '0' {
        0
    } else if c == '1' {
        1
    } else if c == '2' {
        2
    } else if c == '3' {
        3
    } else if c == '4' {
        4
    } else if c == '5' {
        5
    } else if c == '6' {
        6
    } else if c == '7' {
        7
    } else if c == '8' {
        8
    } else {
        9
    }
}

/// Whether every character from `from` on is a digit or a dot.
#[verifier::loop_isolation(false)]
fn all_digits_or_dots(chars: &Vec<char>, from: usize) -> (r: bool)
    requires
        from <= chars@.len(),
    ensures
        r == forall|k: int| from <= k < chars@.len() ==> is_digit_or_dot_char(#[trigger] chars@[k]),
{
    let n = chars.len();
    let mut j = from;
    while j < n
        invariant
            from <= j <= n,
            forall|k: int| from <= k < j ==> is_digit_or_dot_char(#[trigger] chars@[k]),
        decreases n - j,
    {
        let c = chars[j];
        if !(('0' <= c && c <= '9') || c == '.') {
            return false;
        }
        j = j + 1;
    }
    true
}

/// Whether every character from `from` on is a digit.
#[verifier::loop_isolation(false)]
fn all_digits(chars: &Vec<char>, from: usize) -> (r: bool)
    requires
        from <= chars@.len(),
    ensures
        r == forall|k: int| from <= k < chars@.len() ==> is_digit_char(#[trigger] chars@[k]),
{
    let n = chars.len();
    let mut j = from;
    while j < n
        invariant
            from <= j <= n,
            forall|k: int| from <= k < j ==> is_digit_char(#[trigger] chars@[k]),
        decreases n - j,
    {
        let c = chars[j];
        if !('0' <= c && c <= '9') {
            return false;
        }
        j = j + 1;
    }
    true
}

/// The value of the digits from `from` on, or `None` when that value
/// cannot be the magnitude of any `i64`.
#[verifier::loop_isolation(false)]
fn digits_value(chars: &Vec<char>, from: usize) -> (r: Option<u64>)
    requires
        from <= chars@.len(),
        forall|k: int| from <= k < chars@.len() ==> is_digit_char(#[trigger] chars@[k]),
    ensures
        ({
            let v = digits_val(chars@.skip(from as int));
            match r {
                Some(m) => m as int == v && v <= 9223372036854775808,
                None => v > 9223372036854775808,
            }
        }),
{
    let ghost body = chars@.skip(from as int);
    proof {
        assert(forall|k: int| 0 <= k < body.len() ==> is_digit_char(#[trigger] body[k]));
    }
    let n = chars.len();
    let mut mag: u64 = 0;
    let mut j: usize = from;
    while j < n
        invariant
            from <= j <= n,
            mag as int == digits_val(chars@.subrange(from as int, j as int)),
            mag <= 9223372036854775808,
        decreases n - j,
    {
        let c = chars[j];
        let d: u64 = digit_of(c);
        let ghost pref = chars@.subrange(from as int, j + 1);
        proof {
            assert(pref.drop_last() =~= chars@.subrange(from as int, j as int));
            assert(pref.last() == chars@[j as int]);
            assert(digits_val(pref) == mag * 10 + d);
        }
        if mag > 922337203685477580 || mag * 10 > 9223372036854775808 - d {
            proof {
                assert(digits_val(pref) > 9223372036854775808);
                assert(body.take(j + 1 - from) =~= pref);
                lemma_digits_val_prefix(body, j + 1 - from);
            }
            return None;
        }
        mag = mag * 10 + d;
        j = j + 1;
    }
    proof {
        assert(chars@.subrange(from as int, n as int) =~= body);
    }
    Some(mag)
}

// ---------------------------------------------------------------------------
// Reading forms
// ---------------------------------------------------------------------------

/// Resolves one escaped character: the newline escape becomes a newline, any
/// other character stands for itself; nothing to escape means the string
/// literal ended early.
pub fn unescape_char(c: Option<char>) -> (r: Result<char, MalError>)
    ensures
        match c {
            Some(x) => r == Ok::<char, MalError>(unescaped_char(x)),
            None => r == Err::<char, MalError>(MalError(ErrorKind::UnterminatedString)),
        },
{
    match c {
        Some('n') => Ok('\n'),
        Some(x) => Ok(x),
        None => Err(MalError(ErrorKind::UnterminatedString)),
    }
}

/// Consumes a string token and resolves its escapes.
#[verifier::loop_isolation(false)]
fn read_string(reader: &mut Reader) -> (r: MalResult)
    requires
        old(reader).wf(),
        old(reader).pos() < old(reader).toks().len(),
        old(reader).toks()[old(reader).pos()].len() > 0,
        old(reader).toks()[old(reader).pos()][0] == '"',
    ensures
        final(reader).wf(),
        final(reader).toks() == old(reader).toks(),
        final(reader).pos() == old(reader).pos() + 1,
        match spec_unescape(old(reader).toks()[old(reader).pos()]) {
            Ok(cs) => r matches Ok(v) && v@ == Form::Str(cs),
            Err(k) => r matches Err(e) && e == MalError(k),
        },
{
    let token = match reader.next() {
        Some(t) => t,
        None => {
            proof {
                assert(false);
            }
            return Err(MalError(ErrorKind::UnexpectedEndOfInput));
        },
    };
    let chars = str_chars(token.as_str());
    let ghost t = token@;
    let n = chars.len();
    let mut out: Vec<char> = Vec::new();
    let mut j: usize = 1;
    loop
        invariant
            1 <= j <= n,
            spec_unescape(t) == match spec_unescape_from(t, j as int) {
                Ok(cs) => Ok::<Seq<char>, ErrorKind>(out@ + cs),
                Err(k) => Err::<Seq<char>, ErrorKind>(k),
            },
        decreases n - j,
    {
        if j >= n {
            return Err(MalError(ErrorKind::UnterminatedString));
        }
        let c = chars[j];
        if c == '"' {
            proof {
                assert(out@ + Seq::<char>::empty() =~= out@);
            }
            return Ok(MalType::Str(chars_to_string(out)));
        } else if c == '\\' {
            if j + 1 >= n {
                return Err(MalError(ErrorKind::UnterminatedString));
            }
            let u = match unescape_char(Some(chars[j + 1])) {
                Ok(u) => u,
                Err(_) => {
                    proof {
                        assert(false);
                    }
                    return Err(MalError(ErrorKind::UnterminatedString));
                },
            };
            proof {
                match spec_unescape_from(t, j + 2) {
                    Ok(cs) => {
                        assert(out@.push(u) + cs =~= out@ + (seq![unescaped_char(t[j + 1])] + cs));
                    },
                    Err(_) => {},
                }
            }
            out.push(u);
            j = j + 2;
        } else {
            proof {
                match spec_unescape_from(t, j + 1) {
                    Ok(cs) => {
                        assert(out@.push(c) + cs =~= out@ + (seq![t[j as int]] + cs));
                    },
                    Err(_) => {},
                }
            }
            out.push(c);
            j = j + 1;
        }
    }
}

/// Consumes a keyword token: the text after the marker names the keyword.
fn read_keyword(reader: &mut Reader) -> (r: MalResult)
    requires
        old(reader).wf(),
        old(reader).pos() < old(reader).toks().len(),
        old(reader).toks()[old(reader).pos()].len() > 0,
        old(reader).toks()[old(reader).pos()][0] == ':',
    ensures
        final(reader).wf(),
        final(reader).toks() == old(reader).toks(),
        final(reader).pos() == old(reader).pos() + 1,
        r matches Ok(v) && v@ == Form::Keyword(old(reader).toks()[old(reader).pos()].skip(1)),
{
    let token = match reader.next() {
        Some(t) => t,
        None => {
            proof {
                assert(false);
            }
            return Err(MalError(ErrorKind::UnexpectedEndOfInput));
        },
    };
    let chars = str_chars(token.as_str());
    let text = substring_of(&chars, 1, chars.len());
    proof {
        assert(chars@.subrange(1, chars@.len() as int) =~= token@.skip(1));
    }
    Ok(MalType::Keyword(text))
}

/// Consumes one token and resolves it as an atom: a number, a reserved-word
/// literal, or a symbol.
#[verifier::loop_isolation(false)]
fn read_atom(reader: &mut Reader) -> (r: MalResult)
    requires
        old(reader).wf(),
        old(reader).pos() < old(reader).toks().len(),
    ensures
        final(reader).wf(),
        final(reader).toks() == old(reader).toks(),
        final(reader).pos() == old(reader).pos() + 1,
        match spec_read_atom(old(reader).toks()[old(reader).pos()]) {
            Ok(f) => r matches Ok(v) && v@ == f,
            Err(k) => r matches Err(e) && e == MalError(k),
        },
{
    let token = match reader.next() {
        Some(t) => t,
        None => {
            proof {
                assert(false);
            }
            return Err(MalError(ErrorKind::UnexpectedEndOfInput));
        },
    };
    let chars = str_chars(token.as_str());
    let ghost t = token@;
    let n = chars.len();
    let neg = n > 0 && chars[0] == '-';
    let start: usize = if neg {
        1
    } else {
        0
    };
    proof {
        assert(numeric_body(t) =~= t.skip(start as int));
        assert(forall|k: int|
            0 <= k < numeric_body(t).len() ==> #[trigger] numeric_body(t)[k] == chars@[k + start]);
    }
    if n > start && all_digits_or_dots(&chars, start) {
        proof {
            assert(is_numeric_token(t));
        }
        if all_digits(&chars, start) {
            proof {
                assert(forall|k: int|
                    0 <= k < numeric_body(t).len() ==> is_digit_char(
                        #[trigger] numeric_body(t)[k],
                    ));
                assert(t.skip(start as int) == numeric_body(t));
            }
            match digits_value(&chars, start) {
                None => Err(MalError(ErrorKind::MalformedNumber)),
                Some(m) => {
                    if neg {
                        if m == 9223372036854775808 {
                            Ok(MalType::Number(i64::MIN))
                        } else {
                            Ok(MalType::Number(-(m as i64)))
                        }
                    } else {
                        if m <= 9223372036854775807 {
                            Ok(MalType::Number(m as i64))
                        } else {
                            Err(MalError(ErrorKind::MalformedNumber))
                        }
                    }
                },
            }
        } else {
            proof {
                if (forall|k: int|
                    0 <= k < numeric_body(t).len() ==> is_digit_char(
                        #[trigger] numeric_body(t)[k],
                    )) {
                    assert forall|k: int| start <= k < n implies is_digit_char(
                        #[trigger] chars@[k],
                    ) by {
                        assert(numeric_body(t)[k - start] == chars@[k]);
                    }
                    assert(false);
                }
            }
            Err(MalError(ErrorKind::MalformedNumber))
        }
    } else {
        proof {
            if is_numeric_token(t) {
                assert(numeric_body(t).len() > 0);
                assert(n > start);
                assert forall|k: int| start <= k < n implies is_digit_or_dot_char(
                    #[trigger] chars@[k],
                ) by {
                    assert(numeric_body(t)[k - start] == chars@[k]);
                    assert(is_digit_or_dot_char(numeric_body(t)[k - start]));
                }
                assert(false);
            }
        }
        if n == 3 && chars[0] == 'n' && chars[1] == 'i' && chars[2] == 'l' {
            proof {
                assert(t =~= seq!['n', 'i', 'l']);
            }
            Ok(MalType::Nil)
        } else if n == 4 && chars[0] == 't' && chars[1] == 'r' && chars[2] == 'u' && chars[3]
            == 'e' {
            proof {
                assert(t =~= seq!['t', 'r', 'u', 'e']);
            }
            Ok(MalType::Bool(true))
        } else if n == 5 && chars[0] == 'f' && chars[1] == 'a' && chars[2] == 'l' && chars[3]
            == 's' && chars[4] == 'e' {
            proof {
                assert(t =~= seq!['f', 'a', 'l', 's', 'e']);
            }
            Ok(MalType::Bool(false))
        } else {
            proof {
                assert(t != seq!['n', 'i', 'l'] && t != seq!['t', 'r', 'u', 'e'] && t != seq![
                    'f',
                    'a',
                    'l',
                    's',
                    'e',
                ]);
            }
            Ok(MalType::Symbol(token))
        }
    }
}

/// Consumes a quoting marker and reads the one form that follows, wrapping
/// it in a two-element list headed by the marker's expansion symbol.
fn read_quote(reader: &mut Reader, expanded: &str, depth: usize) -> (r: MalResult)
    requires
        old(reader).wf(),
        old(reader).pos() < old(reader).toks().len(),
        depth < MAX_DEPTH,
    ensures
        final(reader).wf(),
        final(reader).toks() == old(reader).toks(),
        match spec_read_quote(old(reader).toks(), old(reader).pos(), depth as int, expanded@) {
            Ok((f, p)) => r matches Ok(v) && v@ == f && final(reader).pos() == p,
            Err(k) => r matches Err(e) && e == MalError(k),
        },
    decreases old(reader).toks().len() - old(reader).pos(), 0int,
{
    reader.next();
    match read_form(reader, depth + 1) {
        Err(e) => Err(e),
        Ok(f) => {
            let name = expanded.to_string();
            let mut items: Vec<MalType> = Vec::new();
            items.push(MalType::Symbol(name));
            items.push(f);
            proof {
                let gv = MalType::MalList(items);
                lemma_collection_view(gv);
                assert(forms_of(items@) =~= seq![
                    Form::Symbol(expanded@),
                    items@[1]@,
                ]);
            }
            Ok(MalType::MalList(items))
        },
    }
}

/// Consumes the opening delimiter and reads a list up to its close.
fn read_list(reader: &mut Reader, depth: usize) -> (r: MalResult)
    requires
        old(reader).wf(),
        old(reader).pos() < old(reader).toks().len(),
        depth < MAX_DEPTH,
    ensures
        final(reader).wf(),
        final(reader).toks() == old(reader).toks(),
        match spec_read_seq(old(reader).toks(), old(reader).pos() + 1, ')', depth as int + 1) {
            Ok((es, q)) => r matches Ok(v) && v@ == Form::List(es) && final(reader).pos() == q,
            Err(k) => r matches Err(e) && e == MalError(k),
        },
    decreases old(reader).toks().len() - old(reader).pos(), 0int,
{
    reader.next();
    match read_list_inner(reader, ')', depth + 1) {
        Err(e) => Err(e),
        Ok(items) => {
            proof {
                let gv = MalType::MalList(items);
                lemma_collection_view(gv);
            }
            Ok(MalType::MalList(items))
        },
    }
}

/// Consumes the opening delimiter and reads a vector up to its close.
fn read_vector(reader: &mut Reader, depth: usize) -> (r: MalResult)
    requires
        old(reader).wf(),
        old(reader).pos() < old(reader).toks().len(),
        depth < MAX_DEPTH,
    ensures
        final(reader).wf(),
        final(reader).toks() == old(reader).toks(),
        match spec_read_seq(old(reader).toks(), old(reader).pos() + 1, ']', depth as int + 1) {
            Ok((es, q)) => r matches Ok(v) && v@ == Form::Vector(es) && final(reader).pos() == q,
            Err(k) => r matches Err(e) && e == MalError(k),
        },
    decreases old(reader).toks().len() - old(reader).pos(), 0int,
{
    reader.next();
    match read_list_inner(reader, ']', depth + 1) {
        Err(e) => Err(e),
        Ok(items) => {
            proof {
                let gv = MalType::Vector(items);
                lemma_collection_view(gv);
            }
            Ok(MalType::Vector(items))
        },
    }
}

/// Reads forms until the closing delimiter, which is consumed; reaching the
/// end of the tokens first leaves the collection unterminated.
#[verifier::loop_isolation(false)]
fn read_list_inner(reader: &mut Reader, close: char, depth: usize) -> (r: Result<
    Vec<MalType>,
    MalError,
>)
    requires
        old(reader).wf(),
    ensures
        final(reader).wf(),
        final(reader).toks() == old(reader).toks(),
        match spec_read_seq(old(reader).toks(), old(reader).pos(), close, depth as int) {
            Ok((es, q)) => r matches Ok(v) && forms_of(v@) == es && final(reader).pos() == q,
            Err(k) => r matches Err(e) && e == MalError(k),
        },
    decreases old(reader).toks().len() - old(reader).pos(), 2int,
{
    let ghost toks = old(reader).toks();
    let ghost pos0 = old(reader).pos();
    let mut list: Vec<MalType> = Vec::new();
    loop
        invariant
            reader.wf(),
            reader.toks() == toks,
            pos0 <= reader.pos(),
            spec_read_seq(toks, pos0, close, depth as int) == match spec_read_seq(
                toks,
                reader.pos(),
                close,
                depth as int,
            ) {
                Ok((es, q)) => Ok::<(Seq<Form>, int), ErrorKind>((forms_of(list@) + es, q)),
                Err(k) => Err::<(Seq<Form>, int), ErrorKind>(k),
            },
        decreases toks.len() - reader.pos(),
    {
        match reader.peek() {
            None => {
                return Err(MalError(ErrorKind::UnterminatedCollection));
            },
            Some(token) => {
                let tchars = str_chars(token.as_str());
                if tchars.len() == 1 && tchars[0] == close {
                    proof {
                        assert(token@ =~= seq![close]);
                        assert(forms_of(list@) + Seq::<Form>::empty() =~= forms_of(list@));
                    }
                    reader.next();
                    return Ok(list);
                }
                proof {
                    assert(token@ != seq![close]);
                    lemma_read_form_progress(toks, reader.pos(), depth as int);
                }
                match read_form(reader, depth) {
                    Err(e) => {
                        return Err(e);
                    },
                    Ok(form) => {
                        proof {
                            lemma_forms_of_push(list@, form);
                            match spec_read_seq(toks, reader.pos(), close, depth as int) {
                                Ok((es, q)) => {
                                    assert(forms_of(list@).push(form@) + es =~= forms_of(list@)
                                        + (seq![form@] + es));
                                },
                                Err(_) => {},
                            }
                        }
                        list.push(form);
                    },
                }
            },
        }
    }
}

/// Reads exactly one form from the reader, dispatching on the kind of the
/// next token, at the given nesting depth.
pub fn read_form(reader: &mut Reader, depth: usize) -> (r: MalResult)
    requires
        old(reader).wf(),
    ensures
        final(reader).wf(),
        final(reader).toks() == old(reader).toks(),
        match spec_read_form(old(reader).toks(), old(reader).pos(), depth as int) {
            Ok((f, p)) => r matches Ok(v) && v@ == f && final(reader).pos() == p,
            Err(k) => r matches Err(e) && e == MalError(k),
        },
        ({
            let toks = old(reader).toks();
            let pos = old(reader).pos();
            (pos >= toks.len() || depth >= MAX_DEPTH || (pos < toks.len() && (toks[pos].len()
                == 0 || is_illegal_token_start(toks[pos][0])))) ==> final(reader).pos() == pos
        }),
    decreases old(reader).toks().len() - old(reader).pos(), 1int,
{
    let token = match reader.peek() {
        None => {
            return Err(MalError(ErrorKind::UnexpectedEndOfInput));
        },
        Some(t) => t,
    };
    if depth >= MAX_DEPTH {
        return Err(MalError(ErrorKind::DepthLimitExceeded));
    }
    let chars = str_chars(token.as_str());
    if chars.len() == 0 {
        return Err(MalError(ErrorKind::UnexpectedEndOfInput));
    }
    let c = chars[0];
    if c == '(' {
        read_list(reader, depth)
    } else if c == '[' {
        read_vector(reader, depth)
    } else if c == '"' {
        read_string(reader)
    } else if c == ':' {
        read_keyword(reader)
    } else if c == '\'' {
        proof {
            reveal_strlit("quote");
            assert("quote"@ =~= seq!['q', 'u', 'o', 't', 'e']);
        }
        read_quote(reader, "quote", depth)
    } else if c == '~' {
        if chars.len() == 2 && chars[1] == '@' {
            proof {
                assert(token@ =~= seq!['~', '@']);
                reveal_strlit("splice-unquote");
                assert("splice-unquote"@ =~= seq![
                    's', 'p', 'l', 'i', 'c', 'e', '-', 'u', 'n', 'q', 'u', 'o', 't', 'e',
                ]);
            }
            read_quote(reader, "splice-unquote", depth)
        } else {
            proof {
                assert(token@ != seq!['~', '@']);
                reveal_strlit("unquote");
                assert("unquote"@ =~= seq!['u', 'n', 'q', 'u', 'o', 't', 'e']);
            }
            read_quote(reader, "unquote", depth)
        }
    } else if c == '`' {
        proof {
            reveal_strlit("quasiquote");
            assert("quasiquote"@ =~= seq!['q', 'u', 'a', 's', 'i', 'q', 'u', 'o', 't', 'e']);
        }
        read_quote(reader, "quasiquote", depth)
    } else if c == '@' {
        proof {
            reveal_strlit("deref");
            assert("deref"@ =~= seq!['d', 'e', 'r', 'e', 'f']);
        }
        read_quote(reader, "deref", depth)
    } else if c == ')' || c == ']' || c == '{' || c == '}' || c == '^' {
        Err(MalError(ErrorKind::IllegalCharacter))
    } else {
        read_atom(reader)
    }
}

/// Scans the input and reads its first form: the whole parse, from text to
/// value tree or error. Tokens after the first form are left for the caller.
pub fn read_str(code: &str) -> (r: MalResult)
    ensures
        match spec_read_str(code@) {
            Ok(f) => r matches Ok(v) && v@ == f,
            Err(k) => r matches Err(e) && e == MalError(k),
        },
{
    let tokens = match tokenizer(code) {
        Ok(ts) => ts,
        Err(e) => {
            return Err(e);
        },
    };
    let mut reader = Reader { tokens, position: 0 };
    read_form(&mut reader, 0)
}

/// Law: scanning can fail in only one way. Whenever the scanner rejects an
/// input, the error is an unterminated string literal.
pub proof fn lemma_scan_error_is_unterminated_string(s: Seq<char>, i: int)
    ensures
        spec_tokens_from(s, i) is Err ==> spec_tokens_from(s, i) == Err::<
            Seq<Seq<char>>,
            ErrorKind,
        >(ErrorKind::UnterminatedString),
    decreases s.len() - i,
{
    if 0 <= i < s.len() {
        let c = s[i];
        if is_ws_char(c) {
            lemma_scan_error_is_unterminated_string(s, i + 1);
        } else if c == ';' {
            lemma_scan_comment_bounds(s, i + 1);
            lemma_scan_error_is_unterminated_string(s, scan_comment(s, i + 1));
        } else if c == '~' {
            if i + 1 < s.len() && s[i + 1] == '@' {
                lemma_scan_error_is_unterminated_string(s, i + 2);
            } else {
                lemma_scan_error_is_unterminated_string(s, i + 1);
            }
        } else if is_special_char(c) {
            lemma_scan_error_is_unterminated_string(s, i + 1);
        } else if c == '"' {
            match scan_string(s, i + 1) {
                None => {},
                Some(k) => {
                    lemma_scan_string_bounds(s, i + 1);
                    lemma_scan_error_is_unterminated_string(s, k + 1);
                },
            }
        } else {
            lemma_scan_symbol_bounds(s, i + 1);
            lemma_scan_error_is_unterminated_string(s, scan_symbol(s, i + 1));
        }
    }
}

/// Law: nesting beyond the depth budget is rejected, never recursed into.
/// Reading a run of opening delimiters longer than the remaining budget
/// yields `DepthLimitExceeded`, whatever follows them.
pub proof fn lemma_deep_nesting_rejected(toks: Seq<Seq<char>>, pos: int, depth: int)
    requires
        0 <= pos,
        0 <= depth <= MAX_DEPTH,
        pos + (MAX_DEPTH - depth) < toks.len(),
        forall|k: int| pos <= k <= pos + (MAX_DEPTH - depth) ==> toks[k] == seq!['('],
    ensures
        spec_read_form(toks, pos, depth) == Err::<(Form, int), ErrorKind>(
            ErrorKind::DepthLimitExceeded,
        ),
    decreases MAX_DEPTH - depth,
{
    assert(toks[pos] == seq!['(']);
    if depth < MAX_DEPTH {
        assert(toks[pos][0] == '(');
        assert(toks[pos + 1] == seq!['(']);
        if toks[pos + 1] == seq![')'] {
            assert(toks[pos + 1][0] == '(' && toks[pos + 1][0] == ')');
        }
        lemma_deep_nesting_rejected(toks, pos + 1, depth + 1);
    }
}

/// Any number an atom resolves to fits in an `i64`.
pub proof fn lemma_read_atom_number_range(t: Seq<char>)
    ensures
        spec_read_atom(t) matches Ok(f) ==> (f is Number ==> i64::MIN <= f->Number_0
            <= i64::MAX),
{
    if is_numeric_token(t) {
        let body = numeric_body(t);
        if forall|k: int| 0 <= k < body.len() ==> is_digit_char(#[trigger] body[k]) {
            lemma_digits_val_nonneg(body);
        }
    }
}

/// Law: a collection whose closing delimiter never appears among the
/// remaining tokens is never read successfully and never yields a partial
/// tree: the result is an error — the unterminated-collection error, unless
/// an element error preempts it under the first-error policy.
pub proof fn lemma_missing_close_never_ok(toks: Seq<Seq<char>>, pos: int, close: char, depth: int)
    requires
        forall|q: int| pos <= q < toks.len() ==> toks[q] != seq![close],
    ensures
        spec_read_seq(toks, pos, close, depth) is Err,
    decreases toks.len() - pos,
{
    if 0 <= pos < toks.len() {
        match spec_read_form(toks, pos, depth) {
            Ok((f, p)) => {
                let p2 = if pos < p <= toks.len() {
                    p
                } else {
                    pos + 1
                };
                lemma_missing_close_never_ok(toks, p2, close, depth);
            },
            Err(_) => {},
        }
    }
}

// ---------------------------------------------------------------------------
// Shape of scanned tokens
// ---------------------------------------------------------------------------

/// Every token the scanner produces has one of these shapes: a string
/// literal, a splice-unquote or unquote marker, a single special character,
/// or a run of symbol characters not starting with a marker.
pub open spec fn wf_token(t: Seq<char>) -> bool {
    t.len() >= 1 && (t[0] == '"' || t == seq!['~'] || t == seq!['~', '@'] || (t.len() == 1
        && is_special_char(t[0])) || (t[0] != '~' && t[0] != '^' && t[0] != '@'
        && forall|k: int| 0 <= k < t.len() ==> is_symbol_char(#[trigger] t[k])))
}

proof fn lemma_scan_symbol_chars(s: Seq<char>, i: int)
    requires
        0 <= i,
    ensures
        forall|k: int| i <= k < scan_symbol(s, i) ==> is_symbol_char(#[trigger] s[k]),
    decreases s.len() - i,
{
    if i < s.len() && is_symbol_char(s[i]) {
        lemma_scan_symbol_chars(s, i + 1);
    }
}

/// Law: the scanner only produces well-formed tokens.
pub proof fn lemma_tokens_wf(s: Seq<char>, i: int)
    ensures
        spec_tokens_from(s, i) matches Ok(ts) ==> forall|k: int|
            0 <= k < ts.len() ==> wf_token(#[trigger] ts[k]),
    decreases s.len() - i,
{
    if 0 <= i < s.len() {
        let c = s[i];
        if is_ws_char(c) {
            lemma_tokens_wf(s, i + 1);
        } else if c == ';' {
            lemma_scan_comment_bounds(s, i + 1);
            lemma_tokens_wf(s, scan_comment(s, i + 1));
        } else if c == '~' {
            if i + 1 < s.len() && s[i + 1] == '@' {
                lemma_tokens_wf(s, i + 2);
                assert(s.subrange(i, i + 2) =~= seq!['~', '@']);
            } else {
                lemma_tokens_wf(s, i + 1);
                assert(s.subrange(i, i + 1) =~= seq!['~']);
            }
        } else if is_special_char(c) {
            lemma_tokens_wf(s, i + 1);
            assert(s.subrange(i, i + 1).len() == 1 && s.subrange(i, i + 1)[0] == c);
        } else if c == '"' {
            match scan_string(s, i + 1) {
                None => {},
                Some(k) => {
                    lemma_scan_string_bounds(s, i + 1);
                    lemma_tokens_wf(s, k + 1);
                    assert(s.subrange(i, k + 1)[0] == '"');
                    assert(s.subrange(i, k + 1).len() >= 1);
                },
            }
        } else {
            lemma_scan_symbol_bounds(s, i + 1);
            lemma_scan_symbol_chars(s, i + 1);
            let e = scan_symbol(s, i + 1);
            lemma_tokens_wf(s, e);
            let t = s.subrange(i, e);
            assert(is_symbol_char(c));
            assert(forall|k: int| 0 <= k < t.len() ==> t[k] == s[i + k]);
            assert(forall|k: int| 0 <= k < t.len() ==> is_symbol_char(#[trigger] t[k]));
            assert(wf_token(t));
        }
    }
}

// ---------------------------------------------------------------------------
// Laws about comments
// ---------------------------------------------------------------------------

proof fn lemma_scan_comment_no_newline(u: Seq<char>, i: int)
    requires
        0 <= i <= u.len(),
        forall|k: int| i <= k < u.len() ==> u[k] != '\n',
    ensures
        scan_comment(u, i) == u.len(),
    decreases u.len() - i,
{
    if i < u.len() {
        lemma_scan_comment_no_newline(u, i + 1);
    }
}

proof fn lemma_scan_comment_append(s: Seq<char>, t: Seq<char>, i: int)
    requires
        0 <= i <= s.len(),
        forall|k: int| 0 <= k < t.len() ==> t[k] != '\n',
    ensures
        scan_comment(s, i) < s.len() ==> scan_comment(s + t, i) == scan_comment(s, i),
        scan_comment(s, i) == s.len() ==> scan_comment(s + t, i) == s.len() + t.len(),
    decreases s.len() - i,
{
    lemma_scan_comment_bounds(s, i);
    if i < s.len() {
        if s[i] != '\n' {
            lemma_scan_comment_append(s, t, i + 1);
        }
    } else {
        lemma_scan_comment_no_newline(s + t, i);
    }
}

proof fn lemma_scan_symbol_append(s: Seq<char>, t: Seq<char>, i: int)
    requires
        0 <= i <= s.len(),
        t.len() >= 1,
        !is_symbol_char(t[0]),
    ensures
        scan_symbol(s + t, i) == scan_symbol(s, i),
    decreases s.len() - i,
{
    lemma_scan_symbol_bounds(s, i);
    if i < s.len() {
        if is_symbol_char(s[i]) {
            lemma_scan_symbol_append(s, t, i + 1);
        }
    } else {
        assert((s + t)[i] == t[0]);
    }
}

proof fn lemma_scan_string_append(s: Seq<char>, t: Seq<char>, i: int)
    requires
        0 <= i,
    ensures
        scan_string(s, i) matches Some(k) ==> scan_string(s + t, i) == Some(k),
    decreases s.len() - i,
{
    if i < s.len() && s[i] != '"' && s[i] != '\n' {
        if s[i] == '\\' {
            if i + 1 < s.len() && s[i + 1] != '\n' {
                lemma_scan_string_append(s, t, i + 2);
            }
        } else {
            lemma_scan_string_append(s, t, i + 1);
        }
    }
}

proof fn lemma_subrange_append(s: Seq<char>, t: Seq<char>, a: int, b: int)
    requires
        0 <= a <= b <= s.len(),
    ensures
        (s + t).subrange(a, b) == s.subrange(a, b),
{
    assert((s + t).subrange(a, b) =~= s.subrange(a, b));
}

proof fn lemma_tokens_trailing_comment(s: Seq<char>, t: Seq<char>, i: int)
    requires
        0 <= i <= s.len(),
        t.len() >= 1,
        t[0] == ';',
        forall|k: int| 0 <= k < t.len() ==> t[k] != '\n',
        spec_tokens_from(s, i) is Ok,
    ensures
        spec_tokens_from(s + t, i) == spec_tokens_from(s, i),
    decreases s.len() - i,
{
    let u = s + t;
    if i == s.len() {
        assert(u[i] == t[0]);
        assert(!is_ws_char(';'));
        lemma_scan_comment_no_newline(u, i + 1);
        assert(spec_tokens_from(u, i) == spec_tokens_from(u, u.len() as int));
    } else {
        assert(u[i] == s[i]);
        let c = s[i];
        if is_ws_char(c) {
            lemma_tokens_trailing_comment(s, t, i + 1);
        } else if c == ';' {
            lemma_scan_comment_bounds(s, i + 1);
            lemma_scan_comment_append(s, t, i + 1);
            let j = scan_comment(s, i + 1);
            if j < s.len() {
                lemma_tokens_trailing_comment(s, t, j);
            } else {
                assert(spec_tokens_from(s, i) == spec_tokens_from(s, j));
                assert(spec_tokens_from(u, i) == spec_tokens_from(u, u.len() as int));
            }
        } else if c == '~' {
            if i + 1 < s.len() && s[i + 1] == '@' {
                lemma_subrange_append(s, t, i, i + 2);
                lemma_tokens_trailing_comment(s, t, i + 2);
            } else {
                if i + 1 < u.len() {
                    assert(u[i + 1] == (if i + 1 < s.len() {
                        s[i + 1]
                    } else {
                        t[0]
                    }));
                    assert(u[i + 1] != '@');
                }
                lemma_subrange_append(s, t, i, i + 1);
                lemma_tokens_trailing_comment(s, t, i + 1);
            }
        } else if is_special_char(c) {
            lemma_subrange_append(s, t, i, i + 1);
            lemma_tokens_trailing_comment(s, t, i + 1);
        } else if c == '"' {
            match scan_string(s, i + 1) {
                None => {},
                Some(k) => {
                    lemma_scan_string_bounds(s, i + 1);
                    lemma_scan_string_append(s, t, i + 1);
                    lemma_subrange_append(s, t, i, k + 1);
                    lemma_tokens_trailing_comment(s, t, k + 1);
                },
            }
        } else {
            lemma_scan_symbol_bounds(s, i + 1);
            assert(!is_symbol_char(t[0]));
            lemma_scan_symbol_append(s, t, i + 1);
            let j = scan_symbol(s, i + 1);
            lemma_subrange_append(s, t, i, j);
            lemma_tokens_trailing_comment(s, t, j);
        }
    }
}

/// Law: a trailing comment is invisible. Appending a comment marker and any
/// newline-free text to an input that scans successfully changes neither the
/// token sequence nor what `read_str` returns.
pub proof fn lemma_read_str_trailing_comment(s: Seq<char>, c: Seq<char>)
    requires
        spec_tokens(s) is Ok,
        forall|k: int| 0 <= k < c.len() ==> c[k] != '\n',
    ensures
        spec_tokens(s + (seq![';'] + c)) == spec_tokens(s),
        spec_read_str(s + (seq![';'] + c)) == spec_read_str(s),
{
    let t = seq![';'] + c;
    assert(t[0] == ';');
    assert(forall|k: int| 0 <= k < t.len() ==> t[k] != '\n');
    lemma_tokens_trailing_comment(s, t, 0);
}

} // verus!
