//! A JSON codec for the one record shape the service speaks:
//! `{"id": <integer>, "name": <string>}` and arrays of such records.
//!
//! The grammar accepted by the parser and produced by the serializer is
//! defined by spec functions over `Seq<char>`; every executable function's
//! contract ties its result to those spec functions exactly.
//!
//! The accepted input language is the JSON grammar for the record shape as
//! a serde-style record decoder reads it: members in any order with blank
//! space between tokens, unknown members tolerated and skipped whatever
//! their value, duplicate known members rejected, identifiers as plain
//! decimals fitting 32 signed bits, and strings with the short escapes,
//! `\uXXXX` escapes and surrogate pairs, raw control characters rejected.

use vstd::prelude::*;

use crate::user::{User, UserView};

verus! {

// ---------------------------------------------------------------------------
// Serialization, as spec functions
// ---------------------------------------------------------------------------

/// The character for one decimal digit value.
pub open spec fn digit_char(d: int) -> char {
    if d == 0 { '0' }
    else if d == 1 { '1' }
    else if d == 2 { '2' }
    else if d == 3 { '3' }
    else if d == 4 { '4' }
    else if d == 5 { '5' }
    else if d == 6 { '6' }
    else if d == 7 { '7' }
    else if d == 8 { '8' }
    else if d == 9 { '9' }
    else { ' ' }
}

/// The decimal digits of a non-negative integer, most significant first;
/// empty for zero (the caller supplies the lone `'0'` in that case).
pub open spec fn dec_digits(n: int) -> Seq<char>
    decreases n,
{
    if n <= 0 {
        Seq::<char>::empty()
    } else {
        dec_digits(n / 10) + seq![digit_char(n % 10)]
    }
}

/// The canonical decimal rendering of an integer.
pub open spec fn int_chars(n: int) -> Seq<char> {
    if n == 0 {
        seq!['0']
    } else if n < 0 {
        seq!['-'] + dec_digits(-n)
    } else {
        dec_digits(n)
    }
}

/// The lowercase hexadecimal character for one digit value.
pub open spec fn hex_char(d: int) -> char {
    if d < 10 { digit_char(d) }
    else if d == 10 { 'a' }
    else if d == 11 { 'b' }
    else if d == 12 { 'c' }
    else if d == 13 { 'd' }
    else if d == 14 { 'e' }
    else { 'f' }
}

/// How one character of a name is rendered inside a JSON string: the quote
/// and the backslash take a backslash escape, the control characters take
/// their short escape or a `\u00XX` escape, everything else stands as is.
pub open spec fn escape_char(c: char) -> Seq<char> {
    if c == '"' { seq!['\\', '"'] }
    else if c == '\\' { seq!['\\', '\\'] }
    else if c == '\u{8}' { seq!['\\', 'b'] }
    else if c == '\t' { seq!['\\', 't'] }
    else if c == '\n' { seq!['\\', 'n'] }
    else if c == '\u{c}' { seq!['\\', 'f'] }
    else if c == '\r' { seq!['\\', 'r'] }
    else if (c as u32) < 32 {
        seq!['\\', 'u', '0', '0', hex_char((c as u32 / 16) as int), hex_char((c as u32 % 16) as int)]
    } else {
        seq![c]
    }
}

/// A whole name rendered as JSON string content (without the quotes).
pub open spec fn escape_string(s: Seq<char>) -> Seq<char>
    decreases s.len(),
{
    if s.len() == 0 {
        Seq::<char>::empty()
    } else {
        escape_char(s[0]) + escape_string(s.drop_first())
    }
}

/// The canonical JSON object for one user record.
pub open spec fn user_json(u: UserView) -> Seq<char> {
    seq!['{', '"', 'i', 'd', '"', ':'] + int_chars(u.id) + seq![',', '"', 'n', 'a', 'm', 'e', '"', ':', '"'] + escape_string(u.name) + seq!['"', '}']
}

/// The comma-separated objects of a record sequence (without the brackets).
pub open spec fn users_items_json(l: Seq<UserView>) -> Seq<char>
    decreases l.len(),
{
    if l.len() == 0 {
        Seq::<char>::empty()
    } else if l.len() == 1 {
        user_json(l[0])
    } else {
        user_json(l[0]) + seq![','] + users_items_json(l.drop_first())
    }
}

/// The canonical JSON array for a record sequence.
pub open spec fn users_array_json(l: Seq<UserView>) -> Seq<char> {
    seq!['['] + users_items_json(l) + seq![']']
}

/// The views of a sequence of records.
pub open spec fn user_views(l: Seq<User>) -> Seq<UserView> {
    l.map_values(|u: User| u@)
}

// ---------------------------------------------------------------------------
// Executable serialization
// ---------------------------------------------------------------------------

/// Relies on `String::push`: appends the given character to the end of the
/// string.
#[verifier::external_body]
fn push_char(s: &mut String, c: char)
    ensures
        final(s)@ == old(s)@.push(c),
{
    s.push(c)
}

/// The characters of a string, in order, as a vector.
pub fn chars_vec(s: &str) -> (r: Vec<char>)
    ensures
        r@ == s@,
{
    let mut r: Vec<char> = Vec::new();
    for c in it: s.chars()
        invariant
            it.seq() == s@,
            r@ == it.seq().take(it.index() as int),
    {
        r.push(c);
    }
    proof {
        assert(r@ =~= s@);
    }
    r
}

/// A string holding exactly the given characters.
pub fn string_of_chars(v: &Vec<char>) -> (r: String)
    ensures
        r@ == v@,
{
    let mut r = String::new();
    let mut i: usize = 0;
    while i < v.len()
        invariant
            i <= v.len(),
            r@ == v@.take(i as int),
        decreases v.len() - i,
    {
        push_char(&mut r, v[i]);
        proof {
            assert(v@.take(i as int).push(v@[i as int]) =~= v@.take(i + 1 as int));
        }
        i = i + 1;
    }
    proof {
        assert(v@.take(v@.len() as int) =~= v@);
    }
    r
}

/// The digit character of one digit value.
fn char_of_digit(d: u32) -> (c: char)
    requires
        d < 10,
    ensures
        c == digit_char(d as int),
{
    if d == 0 { '0' }
    else if d == 1 { '1' }
    else if d == 2 { '2' }
    else if d == 3 { '3' }
    else if d == 4 { '4' }
    else if d == 5 { '5' }
    else if d == 6 { '6' }
    else if d == 7 { '7' }
    else if d == 8 { '8' }
    else { '9' }
}

/// The lowercase hexadecimal character of one digit value.
fn char_of_hex(d: u32) -> (c: char)
    requires
        d < 16,
    ensures
        c == hex_char(d as int),
{
    if d < 10 { char_of_digit(d) }
    else if d == 10 { 'a' }
    else if d == 11 { 'b' }
    else if d == 12 { 'c' }
    else if d == 13 { 'd' }
    else if d == 14 { 'e' }
    else { 'f' }
}

/// Appends the decimal digits of `n` (nothing for zero).
fn push_digits(out: &mut Vec<char>, n: u32)
    ensures
        final(out)@ == old(out)@ + dec_digits(n as int),
    decreases n,
{
    if n == 0 {
        proof {
            assert(old(out)@ + dec_digits(0) =~= old(out)@);
        }
    } else {
        push_digits(out, n / 10);
        let c = char_of_digit(n % 10);
        out.push(c);
        proof {
            assert(old(out)@ + (dec_digits(n as int / 10) + seq![digit_char(n as int % 10)]) =~= (old(out)@ + dec_digits(n as int / 10)).push(digit_char(n as int % 10)));
        }
    }
}

/// Appends the canonical decimal rendering of `n`.
fn push_int_chars(out: &mut Vec<char>, n: i32)
    ensures
        final(out)@ == old(out)@ + int_chars(n as int),
{
    if n == 0 {
        out.push('0');
        proof {
            assert(old(out)@ + int_chars(0) =~= old(out)@.push('0'));
        }
    } else if n < 0 {
        out.push('-');
        let m: u32 = (-(n as i64)) as u32;
        push_digits(out, m);
        proof {
            assert(old(out)@ + (seq!['-'] + dec_digits(m as int)) =~= old(out)@.push('-') + dec_digits(m as int));
        }
    } else {
        push_digits(out, n as u32);
    }
}

/// Appends the escaped rendering of every character of `name`.
fn push_escaped(out: &mut Vec<char>, name: &Vec<char>)
    ensures
        final(out)@ == old(out)@ + escape_string(name@),
{
    let mut i: usize = 0;
    while i < name.len()
        invariant
            i <= name.len(),
            out@ == old(out)@ + escape_string(name@.take(i as int)),
        decreases name.len() - i,
    {
        let c = name[i];
        let u = c as u32;
        if c == '"' {
            out.push('\\');
            out.push('"');
        } else if c == '\\' {
            out.push('\\');
            out.push('\\');
        } else if c == '\u{8}' {
            out.push('\\');
            out.push('b');
        } else if c == '\t' {
            out.push('\\');
            out.push('t');
        } else if c == '\n' {
            out.push('\\');
            out.push('n');
        } else if c == '\u{c}' {
            out.push('\\');
            out.push('f');
        } else if c == '\r' {
            out.push('\\');
            out.push('r');
        } else if u < 32 {
            out.push('\\');
            out.push('u');
            out.push('0');
            out.push('0');
            out.push(char_of_hex(u / 16));
            out.push(char_of_hex(u % 16));
        } else {
            out.push(c);
        }
        proof {
            lemma_escape_push(name@.take(i as int), name@[i as int]);
            assert(name@.take(i as int).push(name@[i as int]) =~= name@.take(i + 1 as int));
            assert(out@ =~= old(out)@ + escape_string(name@.take(i + 1 as int)));
        }
        i = i + 1;
    }
    proof {
        assert(name@.take(name@.len() as int) =~= name@);
    }
}

/// Escaping distributes over appending one character at the end.
proof fn lemma_escape_push(s: Seq<char>, c: char)
    ensures
        escape_string(s.push(c)) == escape_string(s) + escape_char(c),
    decreases s.len(),
{
    if s.len() == 0 {
        reveal_with_fuel(escape_string, 2);
        assert(s.push(c)[0] == c);
        assert(s.push(c).drop_first() =~= Seq::<char>::empty());
        assert(escape_string(s.push(c)) =~= escape_char(c));
        assert(escape_string(s) + escape_char(c) =~= escape_char(c));
    } else {
        assert(s.push(c).drop_first() =~= s.drop_first().push(c));
        lemma_escape_push(s.drop_first(), c);
        assert(escape_string(s.push(c)) =~= escape_string(s) + escape_char(c));
    }
}

/// Appends the canonical JSON object of one record.
fn push_user_json(out: &mut Vec<char>, u: &User)
    ensures
        final(out)@ == old(out)@ + user_json(u@),
{
    out.push('{');
    out.push('"');
    out.push('i');
    out.push('d');
    out.push('"');
    out.push(':');
    push_int_chars(out, u.id);
    out.push(',');
    out.push('"');
    out.push('n');
    out.push('a');
    out.push('m');
    out.push('e');
    out.push('"');
    out.push(':');
    out.push('"');
    let name_chars = chars_vec(u.name.as_str());
    push_escaped(out, &name_chars);
    out.push('"');
    out.push('}');
    proof {
        assert(out@ =~= old(out)@ + user_json(u@));
    }
}

/// The canonical JSON object for one record, as a string.
pub fn serialize_user(u: &User) -> (r: String)
    ensures
        r@ == user_json(u@),
{
    let mut out: Vec<char> = Vec::new();
    push_user_json(&mut out, u);
    string_of_chars(&out)
}

/// Splitting one record off the front of a longer sequence splits its
/// rendered items accordingly.
proof fn lemma_items_push(l: Seq<UserView>, u: UserView)
    ensures
        users_items_json(l.push(u)) == if l.len() == 0 {
            user_json(u)
        } else {
            users_items_json(l) + seq![','] + users_items_json(seq![u])
        },
    decreases l.len(),
{
    if l.len() == 0 {
        assert(l.push(u)[0] == u);
        assert(users_items_json(l.push(u)) =~= user_json(u));
    } else {
        assert(l.push(u).drop_first() =~= l.drop_first().push(u));
        lemma_items_push(l.drop_first(), u);
        assert(users_items_json(l.push(u)) =~= users_items_json(l) + seq![','] + users_items_json(seq![u]));
    }
}

/// The canonical JSON array for a vector of records, as a string.
pub fn serialize_users(users: &Vec<User>) -> (r: String)
    ensures
        r@ == users_array_json(user_views(users@)),
{
    let mut out: Vec<char> = Vec::new();
    out.push('[');
    let mut i: usize = 0;
    while i < users.len()
        invariant
            i <= users.len(),
            out@ == seq!['['] + users_items_json(user_views(users@).take(i as int)),
        decreases users.len() - i,
    {
        if i > 0 {
            out.push(',');
        }
        push_user_json(&mut out, &users[i]);
        proof {
            let views = user_views(users@);
            lemma_items_push(views.take(i as int), views[i as int]);
            assert(views.take(i as int).push(views[i as int]) =~= views.take(i + 1 as int));
            assert(users_items_json(seq![views[i as int]]) == user_json(views[i as int]));
            assert(out@ =~= seq!['['] + users_items_json(views.take(i + 1 as int)));
        }
        i = i + 1;
    }
    out.push(']');
    proof {
        let views = user_views(users@);
        assert(views.take(views.len() as int) =~= views);
        assert(out@ =~= users_array_json(views));
    }
    string_of_chars(&out)
}

// ---------------------------------------------------------------------------
// Parsing, as spec functions
// ---------------------------------------------------------------------------

/// Blank space accepted between tokens.
pub open spec fn is_ws(c: char) -> bool {
    c == ' ' || c == '\t' || c == '\n' || c == '\r'
}

/// The first position at or after `i` that does not hold blank space.
pub open spec fn ws_end(s: Seq<char>, i: int) -> int
    decreases s.len() - i,
{
    if 0 <= i < s.len() && is_ws(s[i]) {
        ws_end(s, i + 1)
    } else {
        i
    }
}

/// A decimal digit character.
pub open spec fn is_digit(c: char) -> bool {
    48 <= c as u32 <= 57
}

/// The value of one digit character.
pub open spec fn digit_val(c: char) -> int {
    c as u32 - 48
}

/// The first position at or after `i` that does not hold a digit.
pub open spec fn digits_end(s: Seq<char>, i: int) -> int
    decreases s.len() - i,
{
    if 0 <= i < s.len() && is_digit(s[i]) {
        digits_end(s, i + 1)
    } else {
        i
    }
}

/// The value of a digit string, most significant digit first.
pub open spec fn digits_value(d: Seq<char>) -> int
    decreases d.len(),
{
    if d.len() == 0 {
        0
    } else {
        digits_value(d.drop_last()) * 10 + digit_val(d.last())
    }
}

/// A signed decimal integer starting at `i`: an optional minus sign, then
/// one or more digits without a redundant leading zero, with a value that
/// fits in 32 signed bits. Yields the value and the position after the
/// last digit.
pub open spec fn parse_int(s: Seq<char>, i: int) -> Option<(int, int)> {
    let neg = 0 <= i < s.len() && s[i] == '-';
    let k = if neg { i + 1 } else { i };
    let e = digits_end(s, k);
    if e == k {
        None
    } else if s[k] == '0' && e != k + 1 {
        None
    } else {
        let m = digits_value(s.subrange(k, e));
        let v = if neg { -m } else { m };
        if i32::MIN <= v <= i32::MAX {
            Some((v, e))
        } else {
            None
        }
    }
}

/// The character denoted by a backslash escape, if the escape is accepted.
pub open spec fn unescape(c: char) -> Option<char> {
    if c == '"' { Some('"') }
    else if c == '\\' { Some('\\') }
    else if c == '/' { Some('/') }
    else if c == 'b' { Some('\u{0008}') }
    else if c == 'f' { Some('\u{000C}') }
    else if c == 'n' { Some('\n') }
    else if c == 'r' { Some('\r') }
    else if c == 't' { Some('\t') }
    else { None }
}

/// The value of one hexadecimal digit character, or a negative number for
/// any other character.
pub open spec fn hex_val(c: char) -> int {
    if 48 <= c as u32 <= 57 { c as u32 - 48 }
    else if 97 <= c as u32 <= 102 { c as u32 - 87 }
    else if 65 <= c as u32 <= 70 { c as u32 - 55 }
    else { -1 }
}

/// The value of the four hexadecimal digits at `i`, or a negative number
/// where they are missing or not hexadecimal.
pub open spec fn hex4_val(s: Seq<char>, i: int) -> int {
    if 0 <= i && i + 4 <= s.len() && hex_val(s[i]) >= 0 && hex_val(s[i + 1]) >= 0 && hex_val(s[i + 2]) >= 0 && hex_val(s[i + 3]) >= 0 {
        hex_val(s[i]) * 0x1000 + hex_val(s[i + 1]) * 0x100 + hex_val(s[i + 2]) * 0x10 + hex_val(s[i + 3])
    } else {
        -1
    }
}

/// A Unicode scalar value: a code point a `char` can hold.
pub open spec fn is_scalar_code(v: int) -> bool {
    0 <= v < 0xD800 || 0xE000 <= v <= 0x10FFFF
}

/// The leading half of a surrogate pair.
pub open spec fn is_high_surrogate(v: int) -> bool {
    0xD800 <= v < 0xDC00
}

/// The trailing half of a surrogate pair.
pub open spec fn is_low_surrogate(v: int) -> bool {
    0xDC00 <= v < 0xE000
}

/// JSON string content starting at `i` (the opening quote stands at `i - 1`):
/// characters and escapes up to an unescaped closing quote. The short
/// escapes, `\uXXXX` escapes and surrogate pairs denote their characters;
/// unescaped control characters are rejected. Yields the denoted
/// characters and the position after the closing quote.
pub open spec fn parse_string_body(s: Seq<char>, i: int) -> Option<(Seq<char>, int)>
    decreases s.len() - i,
{
    if i < 0 || i >= s.len() {
        None
    } else if s[i] == '"' {
        Some((Seq::<char>::empty(), i + 1))
    } else if s[i] == '\\' {
        if i + 2 <= s.len() && s[i + 1] == 'u' {
            let v = hex4_val(s, i + 2);
            if is_scalar_code(v) {
                match parse_string_body(s, i + 6) {
                    Some((rest, j)) => Some((seq![v as char] + rest, j)),
                    None => None,
                }
            } else if is_high_surrogate(v) {
                if i + 8 <= s.len() && s[i + 6] == '\\' && s[i + 7] == 'u' {
                    let w = hex4_val(s, i + 8);
                    if is_low_surrogate(w) {
                        let code = 0x10000 + (v - 0xD800) * 0x400 + (w - 0xDC00);
                        match parse_string_body(s, i + 12) {
                            Some((rest, j)) => Some((seq![code as char] + rest, j)),
                            None => None,
                        }
                    } else {
                        None
                    }
                } else {
                    None
                }
            } else {
                None
            }
        } else if i + 1 < s.len() {
            match unescape(s[i + 1]) {
                Some(c) => match parse_string_body(s, i + 2) {
                    Some((rest, j)) => Some((seq![c] + rest, j)),
                    None => None,
                },
                None => None,
            }
        } else {
            None
        }
    } else if (s[i] as u32) < 32 {
        None
    } else {
        match parse_string_body(s, i + 1) {
            Some((rest, j)) => Some((seq![s[i]] + rest, j)),
            None => None,
        }
    }
}

/// The exact characters `pat` stand at position `i` of `s`.
pub open spec fn has_at(s: Seq<char>, i: int, pat: Seq<char>) -> bool {
    &&& 0 <= i
    &&& i + pat.len() <= s.len()
    &&& s.subrange(i, i + pat.len()) == pat
}

/// The identifier member's key, after string decoding.
pub open spec fn id_chars() -> Seq<char> {
    seq!['i', 'd']
}

/// The name member's key, after string decoding.
pub open spec fn name_chars() -> Seq<char> {
    seq!['n', 'a', 'm', 'e']
}

/// A JSON number starting at `i`, of any shape: integer part without a
/// redundant leading zero, optional fraction, optional exponent. Yields
/// the position after it. The number is only skipped over, never valued.
pub open spec fn skip_number(s: Seq<char>, i: int) -> Option<int> {
    let k = if 0 <= i < s.len() && s[i] == '-' { i + 1 } else { i };
    let e = digits_end(s, k);
    if e == k {
        None
    } else if s[k] == '0' && e != k + 1 {
        None
    } else {
        let f = if e < s.len() && s[e] == '.' {
            let fe = digits_end(s, e + 1);
            if fe == e + 1 { -1 } else { fe }
        } else {
            e
        };
        if f < 0 {
            None
        } else {
            let g = if f < s.len() && (s[f] == 'e' || s[f] == 'E') {
                let h = if f + 1 < s.len() && (s[f + 1] == '+' || s[f + 1] == '-') { f + 2 } else { f + 1 };
                let ge = digits_end(s, h);
                if ge == h { -1 } else { ge }
            } else {
                f
            };
            if g < 0 { None } else { Some(g) }
        }
    }
}

/// Any JSON value starting at `i` (blank space already skipped): a string,
/// object, array, `true`, `false`, `null` or number, read over without
/// being kept. Yields the position after it. The budget `fuel` only keeps
/// the recursion well-founded; every nested value consumes input, so a
/// budget of the input's length never runs out.
pub open spec fn skip_value(s: Seq<char>, i: int, fuel: nat) -> Option<int>
    decreases fuel,
{
    if fuel == 0 {
        None
    } else if i < 0 || i >= s.len() {
        None
    } else if s[i] == '"' {
        match parse_string_body(s, i + 1) {
            Some((x, j)) => Some(j),
            None => None,
        }
    } else if s[i] == '{' {
        skip_members(s, ws_end(s, i + 1), true, (fuel - 1) as nat)
    } else if s[i] == '[' {
        skip_items(s, ws_end(s, i + 1), true, (fuel - 1) as nat)
    } else if s[i] == 't' {
        if has_at(s, i, seq!['t', 'r', 'u', 'e']) { Some(i + 4) } else { None }
    } else if s[i] == 'f' {
        if has_at(s, i, seq!['f', 'a', 'l', 's', 'e']) { Some(i + 5) } else { None }
    } else if s[i] == 'n' {
        if has_at(s, i, seq!['n', 'u', 'l', 'l']) { Some(i + 4) } else { None }
    } else {
        skip_number(s, i)
    }
}

/// The members of an object being skipped, from `i` (blank space already
/// skipped); `first` holds right after the opening brace, where a closing
/// brace is still allowed. Yields the position after the closing brace.
pub open spec fn skip_members(s: Seq<char>, i: int, first: bool, fuel: nat) -> Option<int>
    decreases fuel,
{
    if fuel == 0 {
        None
    } else if i < 0 || i >= s.len() {
        None
    } else if first && s[i] == '}' {
        Some(i + 1)
    } else if s[i] == '"' {
        match parse_string_body(s, i + 1) {
            Some((k, j)) => {
                let c = ws_end(s, j);
                if c < s.len() && s[c] == ':' {
                    match skip_value(s, ws_end(s, c + 1), (fuel - 1) as nat) {
                        Some(e) => {
                            let t = ws_end(s, e);
                            if t < s.len() && s[t] == ',' {
                                skip_members(s, ws_end(s, t + 1), false, (fuel - 1) as nat)
                            } else if t < s.len() && s[t] == '}' {
                                Some(t + 1)
                            } else {
                                None
                            }
                        },
                        None => None,
                    }
                } else {
                    None
                }
            },
            None => None,
        }
    } else {
        None
    }
}

/// The items of an array being skipped, from `i` (blank space already
/// skipped); `first` holds right after the opening bracket, where a
/// closing bracket is still allowed. Yields the position after the
/// closing bracket.
pub open spec fn skip_items(s: Seq<char>, i: int, first: bool, fuel: nat) -> Option<int>
    decreases fuel,
{
    if fuel == 0 {
        None
    } else if i < 0 || i >= s.len() {
        None
    } else if first && s[i] == ']' {
        Some(i + 1)
    } else {
        match skip_value(s, i, (fuel - 1) as nat) {
            Some(e) => {
                let t = ws_end(s, e);
                if t < s.len() && s[t] == ',' {
                    skip_items(s, ws_end(s, t + 1), false, (fuel - 1) as nat)
                } else if t < s.len() && s[t] == ']' {
                    Some(t + 1)
                } else {
                    None
                }
            },
            None => None,
        }
    }
}

/// One member of the record object, starting at its key's opening quote.
/// A key that decodes to `id` takes an integer, one that decodes to `name`
/// takes a string, and either is an error the second time it occurs; any
/// other member is skipped, whatever its value. Yields the gathered
/// members and the position after the member's value.
pub open spec fn parse_member(s: Seq<char>, i: int, idv: Option<int>, nm: Option<Seq<char>>) -> Option<(Option<int>, Option<Seq<char>>, int)> {
    if i < 0 || i >= s.len() || s[i] != '"' {
        None
    } else {
        match parse_string_body(s, i + 1) {
            Some(kp) => {
                let c = ws_end(s, kp.1);
                if c < s.len() && s[c] == ':' {
                    let v = ws_end(s, c + 1);
                    if kp.0 == id_chars() {
                        if idv is Some {
                            None
                        } else {
                            match parse_int(s, v) {
                                Some(p) => Some((Some(p.0), nm, p.1)),
                                None => None,
                            }
                        }
                    } else if kp.0 == name_chars() {
                        if nm is Some {
                            None
                        } else if v < s.len() && s[v] == '"' {
                            match parse_string_body(s, v + 1) {
                                Some(p) => Some((idv, Some(p.0), p.1)),
                                None => None,
                            }
                        } else {
                            None
                        }
                    } else {
                        match skip_value(s, v, s.len() as nat) {
                            Some(e) => Some((idv, nm, e)),
                            None => None,
                        }
                    }
                } else {
                    None
                }
            },
            None => None,
        }
    }
}

/// The member list of the record object, from the first key to the end of
/// the input: members separated by commas, closed by a brace, with only
/// blank space after it; both required members must have occurred. The
/// budget `fuel` only keeps the recursion well-founded; every member
/// consumes input, so a budget of the input's length never runs out.
pub open spec fn parse_members(s: Seq<char>, i: int, idv: Option<int>, nm: Option<Seq<char>>, fuel: nat) -> Option<UserView>
    decreases fuel,
{
    if fuel == 0 {
        None
    } else {
        match parse_member(s, i, idv, nm) {
            Some(st) => {
                let t = ws_end(s, st.2);
                if t < s.len() && s[t] == ',' {
                    parse_members(s, ws_end(s, t + 1), st.0, st.1, (fuel - 1) as nat)
                } else if t < s.len() && s[t] == '}' {
                    if ws_end(s, t + 1) == s.len() {
                        match (st.0, st.1) {
                            (Some(n), Some(m)) => Some(UserView { id: n, name: m }),
                            _ => None,
                        }
                    } else {
                        None
                    }
                } else {
                    None
                }
            },
            None => None,
        }
    }
}

/// The whole accepted input language: one JSON object in which the members
/// `id` (an integer fitting 32 signed bits) and `name` (a string) each
/// occur exactly once, with any other members tolerated and skipped, as a
/// serde-style record decoder reads it. `None` stands for a malformed
/// body.
pub open spec fn parse_user_spec(s: Seq<char>) -> Option<UserView> {
    let i0 = ws_end(s, 0);
    if i0 < s.len() && s[i0] == '{' {
        parse_members(s, ws_end(s, i0 + 1), None, None, s.len() as nat)
    } else {
        None
    }
}

// ---------------------------------------------------------------------------
// Facts about the parsing spec functions
// ---------------------------------------------------------------------------

/// Digit scanning stays within the input and sees digits only.
pub proof fn lemma_digits_end_props(s: Seq<char>, i: int)
    requires
        0 <= i <= s.len(),
    ensures
        i <= digits_end(s, i) <= s.len(),
        forall|t: int| i <= t < digits_end(s, i) ==> is_digit(s[t]),
    decreases s.len() - i,
{
    if i < s.len() && is_digit(s[i]) {
        lemma_digits_end_props(s, i + 1);
    }
}

/// The value of a digit string is never negative.
pub proof fn lemma_digits_value_nonneg(d: Seq<char>)
    requires
        forall|t: int| 0 <= t < d.len() ==> is_digit(d[t]),
    ensures
        digits_value(d) >= 0,
    decreases d.len(),
{
    if d.len() > 0 {
        assert(forall|t: int| 0 <= t < d.drop_last().len() ==> is_digit(#[trigger] d.drop_last()[t]));
        lemma_digits_value_nonneg(d.drop_last());
    }
}

/// Reading further digits never shrinks the value read so far.
pub proof fn lemma_digits_value_mono(s: Seq<char>, k: int, j: int, e: int)
    requires
        0 <= k <= j <= e <= s.len(),
        forall|t: int| k <= t < e ==> is_digit(s[t]),
    ensures
        digits_value(s.subrange(k, e)) >= digits_value(s.subrange(k, j)),
    decreases e - j,
{
    if j < e {
        lemma_digits_value_mono(s, k, j, e - 1);
        assert(forall|t: int| 0 <= t < s.subrange(k, e - 1).len() ==> is_digit(#[trigger] s.subrange(k, e - 1)[t]));
        lemma_digits_value_nonneg(s.subrange(k, e - 1));
        assert(s.subrange(k, e).drop_last() =~= s.subrange(k, e - 1));
        assert(digits_value(s.subrange(k, e)) == digits_value(s.subrange(k, e - 1)) * 10 + digit_val(s.subrange(k, e).last()));
    }
}

/// A successful string parse ends after its starting point and within the
/// input.
pub proof fn lemma_parse_string_body_bounds(s: Seq<char>, i: int)
    requires
        parse_string_body(s, i) is Some,
    ensures
        i < (parse_string_body(s, i)->0).1 <= s.len(),
    decreases s.len() - i,
{
    if 0 <= i < s.len() {
        if s[i] == '"' {
        } else if s[i] == '\\' {
            if i + 2 <= s.len() && s[i + 1] == 'u' {
                let v = hex4_val(s, i + 2);
                if is_scalar_code(v) {
                    if parse_string_body(s, i + 6) is Some {
                        lemma_parse_string_body_bounds(s, i + 6);
                    }
                } else if is_high_surrogate(v) {
                    if i + 8 <= s.len() && s[i + 6] == '\\' && s[i + 7] == 'u' && is_low_surrogate(hex4_val(s, i + 8)) {
                        if parse_string_body(s, i + 12) is Some {
                            lemma_parse_string_body_bounds(s, i + 12);
                        }
                    }
                }
            } else if i + 1 < s.len() && unescape(s[i + 1]) is Some && parse_string_body(s, i + 2) is Some {
                lemma_parse_string_body_bounds(s, i + 2);
            }
        } else if (s[i] as u32) < 32 {
        } else {
            if parse_string_body(s, i + 1) is Some {
                lemma_parse_string_body_bounds(s, i + 1);
            }
        }
    }
}

/// One character of a region equality, read off at its offset.
proof fn lemma_subrange_index(s: Seq<char>, i: int, j: int, pat: Seq<char>, t: int)
    requires
        0 <= i,
        i + pat.len() == j,
        j <= s.len(),
        s.subrange(i, j) == pat,
        0 <= t < pat.len(),
    ensures
        s[i + t] == pat[t],
{
    assert(s.subrange(i, j)[t] == s[i + t]);
}

/// A slice of a region equality is itself a region equality.
proof fn lemma_subrange_sub(s: Seq<char>, i: int, j: int, pat: Seq<char>, x: int, y: int)
    requires
        0 <= i,
        i + pat.len() == j,
        j <= s.len(),
        s.subrange(i, j) == pat,
        0 <= x <= y <= pat.len(),
    ensures
        s.subrange(i + x, i + y) == pat.subrange(x, y),
{
    assert forall|t: int| 0 <= t < y - x implies s.subrange(i + x, i + y)[t] == pat.subrange(x, y)[t] by {
        assert(s.subrange(i, j)[x + t] == s[i + x + t]);
        assert(s.subrange(i + x, i + y)[t] == s[i + x + t]);
    }
    assert(s.subrange(i + x, i + y) =~= pat.subrange(x, y));
}

/// A region equality over a concatenation splits into one region equality
/// for each part.
proof fn lemma_concat_region(s: Seq<char>, off: int, x: Seq<char>, y: Seq<char>)
    requires
        0 <= off,
        off + x.len() + y.len() <= s.len(),
        s.subrange(off, off + x.len() + y.len()) == x + y,
    ensures
        s.subrange(off, off + x.len()) == x,
        s.subrange(off + x.len(), off + x.len() + y.len()) == y,
{
    let n = x.len() as int;
    let m = y.len() as int;
    assert forall|t: int| 0 <= t < n implies s.subrange(off, off + n)[t] == x[t] by {
        assert(s.subrange(off, off + n + m)[t] == s[off + t]);
        assert((x + y)[t] == x[t]);
        assert(s.subrange(off, off + n)[t] == s[off + t]);
    }
    assert(s.subrange(off, off + n) =~= x);
    assert forall|t: int| 0 <= t < m implies s.subrange(off + n, off + n + m)[t] == y[t] by {
        assert(s.subrange(off, off + n + m)[n + t] == s[off + n + t]);
        assert((x + y)[n + t] == y[t]);
        assert(s.subrange(off + n, off + n + m)[t] == s[off + n + t]);
    }
    assert(s.subrange(off + n, off + n + m) =~= y);
}

/// Every character of a rendered non-negative number is a digit.
pub proof fn lemma_dec_digits_are_digits(n: int)
    requires
        n >= 0,
    ensures
        forall|t: int| 0 <= t < dec_digits(n).len() ==> is_digit(#[trigger] dec_digits(n)[t]),
    decreases n,
{
    if n > 0 {
        lemma_dec_digits_are_digits(n / 10);
        let d = dec_digits(n);
        let dp = dec_digits(n / 10);
        assert(d == dp + seq![digit_char(n % 10)]);
        assert forall|t: int| 0 <= t < d.len() implies is_digit(#[trigger] d[t]) by {
            if t < dp.len() {
                assert(d[t] == (dp + seq![digit_char(n % 10)])[t]);
                assert(d[t] == dp[t]);
                assert(is_digit(dp[t]));
            } else {
                assert(d[t] == (dp + seq![digit_char(n % 10)])[t]);
                assert(d[t] == digit_char(n % 10));
                assert(is_digit(digit_char(n % 10)));
            }
        }
    }
}

/// A positive number's rendering starts with a digit other than zero.
pub proof fn lemma_dec_digits_first(n: int)
    requires
        n > 0,
    ensures
        dec_digits(n).len() >= 1,
        dec_digits(n)[0] != '0',
    decreases n,
{
    if n / 10 == 0 {
        assert(1 <= n <= 9);
        assert(dec_digits(n / 10) =~= Seq::<char>::empty());
        assert(dec_digits(n)[0] == (dec_digits(n / 10) + seq![digit_char(n % 10)])[0]);
        assert(n % 10 == n);
        assert(digit_char(n) != '0');
    } else {
        lemma_dec_digits_first(n / 10);
        assert(dec_digits(n)[0] == (dec_digits(n / 10) + seq![digit_char(n % 10)])[0]);
        assert(dec_digits(n)[0] == dec_digits(n / 10)[0]);
    }
}

/// Rendering a non-negative number and reading the digits back yields the
/// number.
pub proof fn lemma_digits_value_of_dec(n: int)
    requires
        n >= 0,
    ensures
        digits_value(dec_digits(n)) == n,
    decreases n,
{
    if n > 0 {
        lemma_digits_value_of_dec(n / 10);
        assert(dec_digits(n).drop_last() =~= dec_digits(n / 10));
        assert(dec_digits(n).last() == digit_char(n % 10));
        assert(digit_val(digit_char(n % 10)) == n % 10);
        assert(digits_value(dec_digits(n)) == digits_value(dec_digits(n).drop_last()) * 10 + digit_val(dec_digits(n).last()));
    }
}

/// Digit scanning over a region known to hold digits, and to end at a
/// non-digit or at the end of the input, stops exactly there.
pub proof fn lemma_digits_end_region(s: Seq<char>, i: int, j: int)
    requires
        0 <= i <= j <= s.len(),
        forall|t: int| i <= t < j ==> is_digit(s[t]),
        j == s.len() || !is_digit(s[j]),
    ensures
        digits_end(s, i) == j,
    decreases j - i,
{
    if i < j {
        lemma_digits_end_region(s, i + 1, j);
    }
}

/// Reading a rendered integer back from the middle of a larger text yields
/// the integer, provided the character after its last digit is not itself a
/// digit.
pub proof fn lemma_parse_int_region(s: Seq<char>, i: int, n: int)
    requires
        0 <= i,
        i32::MIN <= n <= i32::MAX,
        i + int_chars(n).len() < s.len(),
        s.subrange(i, i + int_chars(n).len()) == int_chars(n),
        !is_digit(s[i + int_chars(n).len()]),
    ensures
        parse_int(s, i) == Some((n, i + int_chars(n).len())),
{
    let ic = int_chars(n);
    let il = ic.len() as int;
    if n == 0 {
        assert(ic == seq!['0']);
        lemma_subrange_index(s, i, i + 1, ic, 0);
        assert(ic[0] == '0');
        assert(s[i] == '0');
        assert(s[i] != '-');
        assert forall|t: int| i <= t < i + 1 implies is_digit(s[t]) by {
            assert(s[t] == '0');
        }
        lemma_digits_end_region(s, i, i + 1);
        assert(s.subrange(i, i + 1) =~= seq!['0']);
        assert(digits_value(seq!['0']) == digits_value(seq!['0'].drop_last()) * 10 + digit_val('0'));
        assert(seq!['0'].drop_last() =~= Seq::<char>::empty());
        assert(digits_value(Seq::<char>::empty()) == 0);
        assert(digits_value(s.subrange(i, i + 1)) == 0);
    } else if n > 0 {
        assert(ic == dec_digits(n));
        lemma_dec_digits_are_digits(n);
        lemma_dec_digits_first(n);
        assert(il >= 1);
        lemma_subrange_index(s, i, i + il, ic, 0);
        assert(is_digit(dec_digits(n)[0]));
        assert(is_digit(s[i]));
        assert(s[i] != '-');
        assert(s[i] != '0');
        assert forall|t: int| i <= t < i + il implies is_digit(s[t]) by {
            lemma_subrange_index(s, i, i + il, ic, t - i);
            assert(is_digit(dec_digits(n)[t - i]));
        }
        lemma_digits_end_region(s, i, i + il);
        lemma_digits_value_of_dec(n);
        assert(digits_value(s.subrange(i, i + il)) == n);
    } else {
        let m = -n;
        assert(ic == seq!['-'] + dec_digits(m));
        lemma_dec_digits_are_digits(m);
        lemma_dec_digits_first(m);
        assert(dec_digits(m).len() >= 1);
        assert(il == 1 + dec_digits(m).len());
        lemma_concat_region(s, i, seq!['-'], dec_digits(m));
        lemma_subrange_index(s, i, i + 1, seq!['-'], 0);
        assert(s[i] == '-');
        lemma_subrange_index(s, i + 1, i + il, dec_digits(m), 0);
        assert(s[i + 1] != '0');
        assert forall|t: int| i + 1 <= t < i + il implies is_digit(s[t]) by {
            lemma_subrange_index(s, i + 1, i + il, dec_digits(m), t - i - 1);
            assert(is_digit(dec_digits(m)[t - i - 1]));
        }
        lemma_digits_end_region(s, i + 1, i + il);
        lemma_digits_value_of_dec(m);
        assert(digits_value(s.subrange(i + 1, i + il)) == m);
    }
}

/// A string of characters that need no escaping renders as itself.
pub proof fn lemma_escape_string_plain(w: Seq<char>)
    requires
        forall|t: int| 0 <= t < w.len() ==> (#[trigger] w[t]) as u32 >= 32 && w[t] != '"' && w[t] != '\\',
    ensures
        escape_string(w) == w,
    decreases w.len(),
{
    if w.len() > 0 {
        assert forall|t: int| 0 <= t < w.drop_first().len() implies (#[trigger] w.drop_first()[t]) as u32 >= 32 && w.drop_first()[t] != '"' && w.drop_first()[t] != '\\' by {
            assert(w.drop_first()[t] == w[t + 1]);
        }
        lemma_escape_string_plain(w.drop_first());
        assert(escape_char(w[0]) == seq![w[0]]);
        assert(seq![w[0]] + w.drop_first() =~= w);
    }
}

/// Reading escaped string content back from the middle of a larger text,
/// up to the closing quote that follows it, yields the original characters.
#[verifier::rlimit(100)]
pub proof fn lemma_parse_escaped_region(s: Seq<char>, i: int, name: Seq<char>)
    requires
        0 <= i,
        i + escape_string(name).len() < s.len(),
        s.subrange(i, i + escape_string(name).len()) == escape_string(name),
        s[i + escape_string(name).len()] == '"',
    ensures
        parse_string_body(s, i) == Some((name, i + escape_string(name).len() + 1)),
    decreases name.len(),
{
    let esc = escape_string(name);
    let el = esc.len() as int;
    if name.len() == 0 {
        assert(el == 0);
        assert(s[i] == '"');
        assert(parse_string_body(s, i) == Some((Seq::<char>::empty(), i + 1)));
        assert(Seq::<char>::empty() =~= name);
    } else {
        let c = name[0];
        let rest = name.drop_first();
        let erest = escape_string(rest);
        assert(esc == escape_char(c) + erest);
        let ec = escape_char(c);
        let w = ec.len() as int;
        lemma_concat_region(s, i, ec, erest);
        lemma_parse_escaped_region(s, i + w, rest);
        assert(parse_string_body(s, i + w) == Some((rest, i + el + 1)));
        assert(seq![c] + rest =~= name);
        if c == '"' {
            lemma_subrange_index(s, i, i + 2, ec, 0);
            lemma_subrange_index(s, i, i + 2, ec, 1);
            assert(s[i] == '\\' && s[i + 1] == '"');
            assert(unescape(s[i + 1]) == Some(c));
            assert(parse_string_body(s, i) == Some((name, i + el + 1)));
        } else if c == '\\' {
            lemma_subrange_index(s, i, i + 2, ec, 0);
            lemma_subrange_index(s, i, i + 2, ec, 1);
            assert(s[i] == '\\' && s[i + 1] == '\\');
            assert(unescape(s[i + 1]) == Some(c));
            assert(parse_string_body(s, i) == Some((name, i + el + 1)));
        } else if c == '\u{8}' || c == '\t' || c == '\n' || c == '\u{c}' || c == '\r' {
            lemma_subrange_index(s, i, i + 2, ec, 0);
            lemma_subrange_index(s, i, i + 2, ec, 1);
            assert(s[i] == '\\');
            assert(s[i + 1] != 'u');
            assert(unescape(s[i + 1]) == Some(c));
            assert(parse_string_body(s, i) == Some((name, i + el + 1)));
        } else if (c as u32) < 32 {
            assert(ec == seq!['\\', 'u', '0', '0', hex_char((c as u32 / 16) as int), hex_char((c as u32 % 16) as int)]);
            lemma_subrange_index(s, i, i + 6, ec, 0);
            lemma_subrange_index(s, i, i + 6, ec, 1);
            lemma_subrange_index(s, i, i + 6, ec, 2);
            lemma_subrange_index(s, i, i + 6, ec, 3);
            lemma_subrange_index(s, i, i + 6, ec, 4);
            lemma_subrange_index(s, i, i + 6, ec, 5);
            assert(s[i] == '\\' && s[i + 1] == 'u');
            let u = c as u32;
            let hi = (u / 16) as int;
            let lo = (u % 16) as int;
            assert(0 <= hi < 2 && 0 <= lo < 16);
            assert(hex_val('0') == 0);
            assert(hex_val(hex_char(hi)) == hi);
            assert(hex_val(hex_char(lo)) == lo);
            assert(hex4_val(s, i + 2) == hi * 16 + lo);
            assert(hi * 16 + lo == u as int);
            assert(is_scalar_code(u as int));
            vstd::utf8::char_u32_cast(c, u);
            assert((u as int) as char == c);
            assert(parse_string_body(s, i) == Some((name, i + el + 1)));
        } else {
            assert(ec == seq![c]);
            lemma_subrange_index(s, i, i + 1, ec, 0);
            assert(s[i] == c);
            assert(s[i] != '"' && s[i] != '\\');
            assert(!((s[i] as u32) < 32));
            assert(parse_string_body(s, i) == Some((name, i + el + 1)));
        }
    }
}

/// The five regions of a rendered record.
#[verifier::rlimit(50)]
proof fn lemma_round_trip_frame(u: UserView)
    ensures
        ({
            let s = user_json(u);
            let il = int_chars(u.id).len() as int;
            let el = escape_string(u.name).len() as int;
            &&& il >= 1
            &&& s.len() == 17 + il + el
            &&& s.subrange(0, 6) == seq!['{', '"', 'i', 'd', '"', ':']
            &&& s.subrange(6, 6 + il) == int_chars(u.id)
            &&& s.subrange(6 + il, 15 + il) == seq![',', '"', 'n', 'a', 'm', 'e', '"', ':', '"']
            &&& s.subrange(15 + il, 15 + il + el) == escape_string(u.name)
            &&& s.subrange(15 + il + el, 17 + il + el) == seq!['"', '}']
        }),
{
    let s = user_json(u);
    let a = seq!['{', '"', 'i', 'd', '"', ':'];
    let ic = int_chars(u.id);
    let b = seq![',', '"', 'n', 'a', 'm', 'e', '"', ':', '"'];
    let esc = escape_string(u.name);
    let cc = seq!['"', '}'];
    let il = ic.len() as int;
    let el = esc.len() as int;
    assert(il >= 1) by {
        if u.id > 0 {
        } else if u.id < 0 {
        }
    }
    let p2 = a + ic;
    let p3 = p2 + b;
    let p4 = p3 + esc;
    assert(s == p4 + cc);
    assert(s.len() == 17 + il + el);
    assert(s.subrange(0, s.len() as int) =~= s);
    lemma_concat_region(s, 0, p4, cc);
    lemma_concat_region(s, 0, p3, esc);
    lemma_concat_region(s, 0, p2, b);
    lemma_concat_region(s, 0, a, ic);
}

/// The identifier member of a rendered record, as the parser reads it.
#[verifier::rlimit(100)]
proof fn lemma_round_trip_id_part(u: UserView)
    requires
        crate::user::user_view_valid(u),
    ensures
        ({
            let s = user_json(u);
            let il = int_chars(u.id).len() as int;
            &&& s[0] == '{'
            &&& ws_end(s, 0) == 0
            &&& ws_end(s, 1) == 1
            &&& parse_member(s, 1, None, None) == Some((Some(u.id), None::<Seq<char>>, 6 + il))
            &&& ws_end(s, 6 + il) == 6 + il
            &&& s[6 + il] == ','
            &&& ws_end(s, 7 + il) == 7 + il
        }),
{
    lemma_round_trip_frame(u);
    let s = user_json(u);
    let a = seq!['{', '"', 'i', 'd', '"', ':'];
    let ic = int_chars(u.id);
    let b = seq![',', '"', 'n', 'a', 'm', 'e', '"', ':', '"'];
    let il = ic.len() as int;
    let el = escape_string(u.name).len() as int;
    lemma_subrange_index(s, 0, 6, a, 0);
    lemma_subrange_index(s, 0, 6, a, 1);
    lemma_subrange_index(s, 0, 6, a, 4);
    lemma_subrange_index(s, 0, 6, a, 5);
    assert(s[0] == '{');
    assert(ws_end(s, 0) == 0);
    assert(s[1] == '"');
    assert(ws_end(s, 1) == 1);
    assert forall|t: int| 0 <= t < id_chars().len() implies (#[trigger] id_chars()[t]) as u32 >= 32 && id_chars()[t] != '"' && id_chars()[t] != '\\' by {
        if t == 0 {
            assert(id_chars()[0] == 'i');
        } else {
            assert(id_chars()[1] == 'd');
        }
    }
    lemma_escape_string_plain(id_chars());
    lemma_subrange_sub(s, 0, 6, a, 2, 4);
    assert(a.subrange(2, 4) =~= id_chars());
    assert(s[4] == '"');
    lemma_parse_escaped_region(s, 2, id_chars());
    assert(parse_string_body(s, 2) == Some((id_chars(), 5int)));
    assert(s[5] == ':');
    assert(ws_end(s, 5) == 5);
    lemma_subrange_index(s, 6, 6 + il, ic, 0);
    assert(!is_ws(s[6])) by {
        if u.id == 0 {
            assert(ic[0] == '0');
        } else if u.id > 0 {
            lemma_dec_digits_are_digits(u.id);
            assert(is_digit(dec_digits(u.id)[0]));
        } else {
            assert(ic[0] == (seq!['-'] + dec_digits(-u.id))[0]);
            assert(ic[0] == '-');
        }
    }
    assert(ws_end(s, 6) == 6);
    let a2: int = 6 + il;
    lemma_subrange_index(s, a2, a2 + 9, b, 0);
    lemma_subrange_index(s, a2, a2 + 9, b, 1);
    assert(s[a2] == ',');
    assert(!is_digit(s[a2]));
    lemma_parse_int_region(s, 6, u.id);
    assert(parse_int(s, 6) == Some((u.id, a2)));
    assert(parse_member(s, 1, None, None) == Some((Some(u.id), None::<Seq<char>>, a2)));
    assert(ws_end(s, a2) == a2);
    assert(s[a2 + 1] == '"');
    assert(ws_end(s, a2 + 1) == a2 + 1);
}

/// The name member's key, as the parser reads it back.
#[verifier::rlimit(100)]
proof fn lemma_round_trip_name_key(u: UserView)
    ensures
        ({
            let s = user_json(u);
            let il = int_chars(u.id).len() as int;
            parse_string_body(s, 8 + il) == Some((name_chars(), 13 + il))
        }),
{
    lemma_round_trip_frame(u);
    let s = user_json(u);
    let b = seq![',', '"', 'n', 'a', 'm', 'e', '"', ':', '"'];
    let il = int_chars(u.id).len() as int;
    let el = escape_string(u.name).len() as int;
    let a2: int = 6 + il;
    assert forall|t: int| 0 <= t < name_chars().len() implies (#[trigger] name_chars()[t]) as u32 >= 32 && name_chars()[t] != '"' && name_chars()[t] != '\\' by {
        if t == 0 {
            assert(name_chars()[0] == 'n');
        } else if t == 1 {
            assert(name_chars()[1] == 'a');
        } else if t == 2 {
            assert(name_chars()[2] == 'm');
        } else {
            assert(name_chars()[3] == 'e');
        }
    }
    lemma_escape_string_plain(name_chars());
    lemma_subrange_sub(s, a2, a2 + 9, b, 2, 6);
    assert(b.subrange(2, 6) =~= name_chars());
    lemma_subrange_index(s, a2, a2 + 9, b, 6);
    assert(s[a2 + 6] == '"');
    lemma_parse_escaped_region(s, a2 + 2, name_chars());
}

/// The name member's value, as the parser reads it back.
#[verifier::rlimit(100)]
proof fn lemma_round_trip_name_value(u: UserView)
    ensures
        ({
            let s = user_json(u);
            let il = int_chars(u.id).len() as int;
            let el = escape_string(u.name).len() as int;
            parse_string_body(s, 15 + il) == Some((u.name, 16 + il + el))
        }),
{
    lemma_round_trip_frame(u);
    let s = user_json(u);
    let cc = seq!['"', '}'];
    let il = int_chars(u.id).len() as int;
    let el = escape_string(u.name).len() as int;
    lemma_subrange_index(s, 15 + il + el, s.len() as int, cc, 0);
    assert(s[15 + il + el] == '"');
    lemma_parse_escaped_region(s, 15 + il, u.name);
}

/// The name member and the closing brace of a rendered record, as the
/// parser reads them.
#[verifier::rlimit(100)]
proof fn lemma_round_trip_name_part(u: UserView)
    requires
        crate::user::user_view_valid(u),
    ensures
        ({
            let s = user_json(u);
            let il = int_chars(u.id).len() as int;
            let el = escape_string(u.name).len() as int;
            &&& parse_member(s, 7 + il, Some(u.id), None) == Some((Some(u.id), Some(u.name), 16 + il + el))
            &&& ws_end(s, 16 + il + el) == 16 + il + el
            &&& s[16 + il + el] == '}'
            &&& ws_end(s, 17 + il + el) == s.len()
        }),
{
    lemma_round_trip_frame(u);
    lemma_round_trip_name_key(u);
    lemma_round_trip_name_value(u);
    let s = user_json(u);
    let b = seq![',', '"', 'n', 'a', 'm', 'e', '"', ':', '"'];
    let cc = seq!['"', '}'];
    let il = int_chars(u.id).len() as int;
    let el = escape_string(u.name).len() as int;
    let a2: int = 6 + il;
    lemma_subrange_index(s, a2, a2 + 9, b, 1);
    lemma_subrange_index(s, a2, a2 + 9, b, 7);
    lemma_subrange_index(s, a2, a2 + 9, b, 8);
    assert(s[a2 + 1] == '"');
    assert(parse_string_body(s, a2 + 2) == Some((name_chars(), a2 + 7)));
    assert(s[a2 + 7] == ':');
    assert(ws_end(s, a2 + 7) == a2 + 7);
    assert(s[a2 + 8] == '"');
    assert(ws_end(s, a2 + 8) == a2 + 8);
    assert(id_chars().len() == 2 && name_chars().len() == 4);
    assert(name_chars() != id_chars());
    assert(parse_string_body(s, a2 + 9) == Some((u.name, a2 + 10 + el)));
    assert(parse_member(s, a2 + 1, Some(u.id), None) == Some((Some(u.id), Some(u.name), 16 + il + el)));
    let b4: int = a2 + 10 + el;
    lemma_subrange_index(s, 15 + il + el, s.len() as int, cc, 1);
    assert(b4 == s.len() - 1);
    assert(s[b4] == '}');
    assert(ws_end(s, b4) == b4);
    assert(ws_end(s, b4 + 1) == s.len());
}

/// The echo law: any record a `User` value can hold, rendered as JSON and
/// decoded again, comes back unchanged.
#[verifier::rlimit(30)]
pub proof fn lemma_parse_serialize_round_trip(u: UserView)
    requires
        crate::user::user_view_valid(u),
    ensures
        parse_user_spec(user_json(u)) == Some(u),
{
    lemma_round_trip_frame(u);
    lemma_round_trip_id_part(u);
    lemma_round_trip_name_part(u);
    let s = user_json(u);
    let il = int_chars(u.id).len() as int;
    let el = escape_string(u.name).len() as int;
    let f0 = s.len() as nat;
    assert(f0 >= 17);
    assert(parse_members(s, 7 + il, Some(u.id), None, (f0 - 1) as nat) == Some(UserView { id: u.id, name: u.name }));
    assert(parse_members(s, 1, None, None, f0) == Some(UserView { id: u.id, name: u.name }));
    assert(parse_user_spec(s) == Some(UserView { id: u.id, name: u.name }));
    assert(UserView { id: u.id, name: u.name } == u);
}

// ---------------------------------------------------------------------------
// Executable parsing
// ---------------------------------------------------------------------------

/// The view of a gathered identifier member.
pub open spec fn opt_id_view(o: Option<i32>) -> Option<int> {
    match o {
        Some(x) => Some(x as int),
        None => None,
    }
}

/// The view of a gathered name member.
pub open spec fn opt_name_view(o: Option<Vec<char>>) -> Option<Seq<char>> {
    match o {
        Some(w) => Some(w@),
        None => None,
    }
}

/// Whether `c` is accepted blank space.
fn char_is_ws(c: char) -> (r: bool)
    ensures
        r == is_ws(c),
{
    c == ' ' || c == '\t' || c == '\n' || c == '\r'
}

/// The first position at or after `i` that does not hold blank space.
fn skip_ws(v: &Vec<char>, i: usize) -> (r: usize)
    requires
        i <= v.len(),
    ensures
        r as int == ws_end(v@, i as int),
        i <= r <= v.len(),
    decreases v.len() - i,
{
    if i < v.len() && char_is_ws(v[i]) {
        skip_ws(v, i + 1)
    } else {
        i
    }
}

/// The digit value of `c`, if `c` is a digit.
fn digit_of_char(c: char) -> (r: Option<u32>)
    ensures
        match r {
            Some(d) => is_digit(c) && d as int == digit_val(c) && d < 10,
            None => !is_digit(c),
        },
{
    let u = c as u32;
    if 48 <= u && u <= 57 {
        Some(u - 48)
    } else {
        None
    }
}

/// The first position at or after `i` that does not hold a digit.
fn scan_digits(v: &Vec<char>, i: usize) -> (r: usize)
    requires
        i <= v.len(),
    ensures
        r as int == digits_end(v@, i as int),
        i <= r <= v.len(),
    decreases v.len() - i,
{
    if i < v.len() {
        let d = digit_of_char(v[i]);
        if d.is_some() {
            return scan_digits(v, i + 1);
        }
    }
    i
}

/// A signed decimal integer at `i`, exactly as [`parse_int`] describes it.
fn parse_int_at(v: &Vec<char>, i: usize) -> (r: Option<(i32, usize)>)
    requires
        i <= v.len(),
    ensures
        match r {
            Some((val, j)) => parse_int(v@, i as int) == Some((val as int, j as int)) && i <= j <= v.len(),
            None => parse_int(v@, i as int) is None,
        },
{
    let ghost s = v@;
    let neg = i < v.len() && v[i] == '-';
    let k = if neg { i + 1 } else { i };
    let mut j = k;
    let mut m: u64 = 0;
    proof {
        assert(s.subrange(k as int, k as int) =~= Seq::<char>::empty());
    }
    loop
        invariant
            i <= v.len(),
            k <= j <= v.len(),
            s == v@,
            neg == (0 <= i < s.len() && s[i as int] == '-'),
            k as int == if neg { i as int + 1 } else { i as int },
            digits_end(s, k as int) == digits_end(s, j as int),
            forall|t: int| k <= t < j ==> is_digit(s[t]),
            m as int == digits_value(s.subrange(k as int, j as int)),
            m <= 0x8000_0000u64,
        ensures
            k <= j <= v.len(),
            digits_end(s, k as int) == j as int,
            m as int == digits_value(s.subrange(k as int, j as int)),
            m <= 0x8000_0000u64,
        decreases v.len() - j,
    {
        if j >= v.len() {
            break;
        }
        let dopt = digit_of_char(v[j]);
        if dopt.is_none() {
            break;
        }
        let d = dopt.unwrap();
        m = m * 10 + (d as u64);
        proof {
            assert(is_digit(s[j as int]));
            assert(d as int == digit_val(s[j as int]));
            let sub = s.subrange(k as int, j as int + 1);
            assert(sub.drop_last() =~= s.subrange(k as int, j as int));
            assert(sub.last() == s[j as int]);
            assert(digits_value(sub) == digits_value(sub.drop_last()) * 10 + digit_val(sub.last()));
        }
        j = j + 1;
        if m > 0x8000_0000u64 {
            proof {
                let e = digits_end(s, k as int);
                assert(is_digit(s[j as int - 1]));
                assert(digits_end(s, j as int - 1) == digits_end(s, j as int));
                assert(e == digits_end(s, j as int));
                lemma_digits_end_props(s, j as int);
                assert(j as int <= e <= s.len());
                assert(forall|t: int| k <= t < e ==> is_digit(s[t]));
                lemma_digits_value_mono(s, k as int, j as int, e);
                assert(digits_value(s.subrange(k as int, e)) > 0x8000_0000);
                let ii = i as int;
                let negs = 0 <= ii < s.len() && s[ii] == '-';
                assert(negs == neg);
                let ks = if negs { ii + 1 } else { ii };
                assert(ks == k as int);
                let es = digits_end(s, ks);
                assert(es == e);
                assert(es != ks);
                let ms = digits_value(s.subrange(ks, es));
                assert(ms > 2147483648);
                let vs = if negs { -ms } else { ms };
                assert(!(i32::MIN <= vs && vs <= i32::MAX));
                assert(parse_int(s, ii) is None);
            }
            return None;
        }
    }
    if j == k {
        return None;
    }
    if v[k] == '0' && j != k + 1 {
        return None;
    }
    if neg {
        let val: i32 = (-(m as i64)) as i32;
        Some((val, j))
    } else {
        if m > 0x7FFF_FFFFu64 {
            return None;
        }
        let val: i32 = m as i32;
        Some((val, j))
    }
}

/// The character denoted by a short backslash escape, if accepted.
fn unescape_char(c: char) -> (r: Option<char>)
    ensures
        r == unescape(c),
{
    if c == '"' { Some('"') }
    else if c == '\\' { Some('\\') }
    else if c == '/' { Some('/') }
    else if c == 'b' { Some('\u{0008}') }
    else if c == 'f' { Some('\u{000C}') }
    else if c == 'n' { Some('\n') }
    else if c == 'r' { Some('\r') }
    else if c == 't' { Some('\t') }
    else { None }
}

/// The value of one hexadecimal digit character, if it is one.
fn hex_of_char(c: char) -> (r: Option<u32>)
    ensures
        match r {
            Some(d) => hex_val(c) == d as int && d < 16,
            None => hex_val(c) < 0,
        },
{
    let u = c as u32;
    if 48 <= u && u <= 57 { Some(u - 48) }
    else if 97 <= u && u <= 102 { Some(u - 87) }
    else if 65 <= u && u <= 70 { Some(u - 55) }
    else { None }
}

/// The value of the four hexadecimal digits at `i`, if they stand there.
fn hex4_at(v: &Vec<char>, i: usize) -> (r: Option<u32>)
    requires
        i <= v.len(),
    ensures
        match r {
            Some(x) => hex4_val(v@, i as int) == x as int && x < 0x10000,
            None => hex4_val(v@, i as int) < 0,
        },
{
    if v.len() - i < 4 {
        return None;
    }
    let a = hex_of_char(v[i]);
    let b = hex_of_char(v[i + 1]);
    let c = hex_of_char(v[i + 2]);
    let d = hex_of_char(v[i + 3]);
    if a.is_none() || b.is_none() || c.is_none() || d.is_none() {
        return None;
    }
    Some(a.unwrap() * 0x1000 + b.unwrap() * 0x100 + c.unwrap() * 0x10 + d.unwrap())
}

/// Relies on `char::from_u32`: yields the character with the given code
/// point, which exists for every Unicode scalar value.
#[verifier::external_body]
fn char_from_code(x: u32) -> (c: char)
    requires
        x < 0xD800 || (0xE000 <= x && x <= 0x10FFFF),
    ensures
        c == x as char,
{
    char::from_u32(x).unwrap()
}

/// JSON string content at `i`, exactly as [`parse_string_body`] describes
/// it.
#[verifier::rlimit(100)]
fn parse_string_at(v: &Vec<char>, i: usize) -> (r: Option<(Vec<char>, usize)>)
    requires
        i <= v.len(),
    ensures
        match r {
            Some(p) => parse_string_body(v@, i as int) == Some((p.0@, p.1 as int)) && i < p.1 <= v.len(),
            None => parse_string_body(v@, i as int) is None,
        },
{
    let ghost s = v@;
    let mut out: Vec<char> = Vec::new();
    let mut cur = i;
    proof {
        if parse_string_body(s, i as int) is Some {
            let p = parse_string_body(s, i as int)->0;
            assert(Seq::<char>::empty() + p.0 =~= p.0);
        }
    }
    loop
        invariant
            i <= cur <= v.len(),
            s == v@,
            match parse_string_body(s, cur as int) {
                Some(p) => parse_string_body(s, i as int) == Some((out@ + p.0, p.1)),
                None => parse_string_body(s, i as int) is None,
            },
        decreases v.len() - cur,
    {
        if cur >= v.len() {
            proof {
                assert(parse_string_body(s, cur as int) is None);
            }
            return None;
        }
        let c = v[cur];
        if c == '"' {
            proof {
                assert(parse_string_body(s, cur as int) == Some((Seq::<char>::empty(), cur as int + 1)));
                assert(out@ + Seq::<char>::empty() =~= out@);
                assert(parse_string_body(s, i as int) == Some((out@, cur as int + 1)));
                lemma_parse_string_body_bounds(s, i as int);
            }
            return Some((out, cur + 1));
        } else if c == '\\' {
            let has_u = v.len() - cur >= 2 && v[cur + 1] == 'u';
            if has_u {
                match hex4_at(v, cur + 2) {
                    Some(x) => {
                        if x < 0xD800 || x >= 0xE000 {
                            let ch = char_from_code(x);
                            proof {
                                assert(is_scalar_code(hex4_val(s, cur as int + 2)));
                                assert(ch == hex4_val(s, cur as int + 2) as char);
                                if parse_string_body(s, cur as int + 6) is Some {
                                    let p = parse_string_body(s, cur as int + 6)->0;
                                    assert(parse_string_body(s, cur as int) == Some((seq![ch] + p.0, p.1)));
                                    assert(out@.push(ch) + p.0 =~= out@ + (seq![ch] + p.0));
                                } else {
                                    assert(parse_string_body(s, cur as int) is None);
                                }
                            }
                            out.push(ch);
                            cur = cur + 6;
                        } else if x < 0xDC00 {
                            let has_u2 = v.len() - cur >= 8 && v[cur + 6] == '\\' && v[cur + 7] == 'u';
                            if !has_u2 {
                                proof {
                                    assert(parse_string_body(s, cur as int) is None);
                                }
                                return None;
                            }
                            match hex4_at(v, cur + 8) {
                                Some(y) => {
                                    if !(0xDC00 <= y && y < 0xE000) {
                                        proof {
                                            assert(parse_string_body(s, cur as int) is None);
                                        }
                                        return None;
                                    }
                                    let code: u32 = 0x10000 + (x - 0xD800) * 0x400 + (y - 0xDC00);
                                    let ch = char_from_code(code);
                                    proof {
                                        let vv = hex4_val(s, cur as int + 2);
                                        let ww = hex4_val(s, cur as int + 8);
                                        assert(is_high_surrogate(vv) && is_low_surrogate(ww));
                                        assert(code as int == 0x10000 + (vv - 0xD800) * 0x400 + (ww - 0xDC00));
                                        assert(ch == (0x10000 + (vv - 0xD800) * 0x400 + (ww - 0xDC00)) as char);
                                        if parse_string_body(s, cur as int + 12) is Some {
                                            let p = parse_string_body(s, cur as int + 12)->0;
                                            assert(parse_string_body(s, cur as int) == Some((seq![ch] + p.0, p.1)));
                                            assert(out@.push(ch) + p.0 =~= out@ + (seq![ch] + p.0));
                                        } else {
                                            assert(parse_string_body(s, cur as int) is None);
                                        }
                                    }
                                    out.push(ch);
                                    cur = cur + 12;
                                },
                                None => {
                                    proof {
                                        assert(parse_string_body(s, cur as int) is None);
                                    }
                                    return None;
                                },
                            }
                        } else {
                            proof {
                                assert(!is_scalar_code(hex4_val(s, cur as int + 2)));
                                assert(!is_high_surrogate(hex4_val(s, cur as int + 2)));
                                assert(parse_string_body(s, cur as int) is None);
                            }
                            return None;
                        }
                    },
                    None => {
                        proof {
                            assert(parse_string_body(s, cur as int) is None);
                        }
                        return None;
                    },
                }
            } else if cur + 1 < v.len() {
                match unescape_char(v[cur + 1]) {
                    Some(u) => {
                        proof {
                            assert(unescape(s[cur as int + 1]) == Some(u));
                            if parse_string_body(s, cur as int + 2) is Some {
                                let p = parse_string_body(s, cur as int + 2)->0;
                                assert(parse_string_body(s, cur as int) == Some((seq![u] + p.0, p.1)));
                                assert(out@.push(u) + p.0 =~= out@ + (seq![u] + p.0));
                            } else {
                                assert(parse_string_body(s, cur as int) is None);
                            }
                        }
                        out.push(u);
                        cur = cur + 2;
                    },
                    None => {
                        proof {
                            assert(parse_string_body(s, cur as int) is None);
                        }
                        return None;
                    },
                }
            } else {
                proof {
                    assert(parse_string_body(s, cur as int) is None);
                }
                return None;
            }
        } else {
            let u = c as u32;
            if u < 32 {
                proof {
                    assert(parse_string_body(s, cur as int) is None);
                }
                return None;
            }
            proof {
                if parse_string_body(s, cur as int + 1) is Some {
                    let p = parse_string_body(s, cur as int + 1)->0;
                    assert(parse_string_body(s, cur as int) == Some((seq![c] + p.0, p.1)));
                    assert(out@.push(c) + p.0 =~= out@ + (seq![c] + p.0));
                } else {
                    assert(parse_string_body(s, cur as int) is None);
                }
            }
            out.push(c);
            cur = cur + 1;
        }
    }
}

/// Whether the exact characters of `pat` stand at `i`.
fn match_at(v: &Vec<char>, i: usize, pat: &Vec<char>) -> (r: bool)
    requires
        i <= v.len(),
    ensures
        r == has_at(v@, i as int, pat@),
{
    if v.len() - i < pat.len() {
        return false;
    }
    let mut t: usize = 0;
    while t < pat.len()
        invariant
            0 <= t <= pat.len(),
            i + pat.len() <= v.len(),
            forall|x: int| 0 <= x < t ==> v@[i + x] == pat@[x],
        decreases pat.len() - t,
    {
        if v[i + t] != pat[t] {
            proof {
                assert(v@.subrange(i as int, i + pat@.len()) [t as int] != pat@[t as int]);
            }
            return false;
        }
        t = t + 1;
    }
    proof {
        assert(v@.subrange(i as int, i + pat@.len()) =~= pat@);
    }
    true
}

/// The characters of the literal `true`.
fn true_vec() -> (r: Vec<char>)
    ensures
        r@ == seq!['t', 'r', 'u', 'e'],
{
    let mut r: Vec<char> = Vec::new();
    r.push('t');
    r.push('r');
    r.push('u');
    r.push('e');
    proof {
        assert(r@ =~= seq!['t', 'r', 'u', 'e']);
    }
    r
}

/// The characters of the literal `false`.
fn false_vec() -> (r: Vec<char>)
    ensures
        r@ == seq!['f', 'a', 'l', 's', 'e'],
{
    let mut r: Vec<char> = Vec::new();
    r.push('f');
    r.push('a');
    r.push('l');
    r.push('s');
    r.push('e');
    proof {
        assert(r@ =~= seq!['f', 'a', 'l', 's', 'e']);
    }
    r
}

/// The characters of the literal `null`.
fn null_vec() -> (r: Vec<char>)
    ensures
        r@ == seq!['n', 'u', 'l', 'l'],
{
    let mut r: Vec<char> = Vec::new();
    r.push('n');
    r.push('u');
    r.push('l');
    r.push('l');
    proof {
        assert(r@ =~= seq!['n', 'u', 'l', 'l']);
    }
    r
}

/// A JSON number at `i`, skipped exactly as [`skip_number`] describes it.
fn skip_number_at(v: &Vec<char>, i: usize) -> (r: Option<usize>)
    requires
        i <= v.len(),
    ensures
        match r {
            Some(g) => skip_number(v@, i as int) == Some(g as int) && g <= v.len(),
            None => skip_number(v@, i as int) is None,
        },
{
    let neg = i < v.len() && v[i] == '-';
    let k = if neg { i + 1 } else { i };
    let e = scan_digits(v, k);
    if e == k {
        return None;
    }
    if v[k] == '0' && e != k + 1 {
        return None;
    }
    let f = if e < v.len() && v[e] == '.' {
        let fe = scan_digits(v, e + 1);
        if fe == e + 1 {
            return None;
        }
        fe
    } else {
        e
    };
    let g = if f < v.len() && (v[f] == 'e' || v[f] == 'E') {
        let h = if f + 1 < v.len() && (v[f + 1] == '+' || v[f + 1] == '-') { f + 2 } else { f + 1 };
        let ge = scan_digits(v, h);
        if ge == h {
            return None;
        }
        ge
    } else {
        f
    };
    Some(g)
}

/// Any JSON value at `i`, skipped exactly as [`skip_value`] describes it.
fn skip_value_at(v: &Vec<char>, i: usize, fuel: usize) -> (r: Option<usize>)
    requires
        i <= v.len(),
    ensures
        match r {
            Some(e) => skip_value(v@, i as int, fuel as nat) == Some(e as int) && e <= v.len(),
            None => skip_value(v@, i as int, fuel as nat) is None,
        },
    decreases fuel,
{
    if fuel == 0 {
        return None;
    }
    if i >= v.len() {
        return None;
    }
    let c = v[i];
    if c == '"' {
        match parse_string_at(v, i + 1) {
            Some(p) => Some(p.1),
            None => None,
        }
    } else if c == '{' {
        skip_members_at(v, skip_ws(v, i + 1), true, fuel - 1)
    } else if c == '[' {
        skip_items_at(v, skip_ws(v, i + 1), true, fuel - 1)
    } else if c == 't' {
        let pat = true_vec();
        if match_at(v, i, &pat) {
            Some(i + 4)
        } else {
            None
        }
    } else if c == 'f' {
        let pat = false_vec();
        if match_at(v, i, &pat) {
            Some(i + 5)
        } else {
            None
        }
    } else if c == 'n' {
        let pat = null_vec();
        if match_at(v, i, &pat) {
            Some(i + 4)
        } else {
            None
        }
    } else {
        skip_number_at(v, i)
    }
}

/// Members of an object being skipped, exactly as [`skip_members`]
/// describes them.
fn skip_members_at(v: &Vec<char>, i: usize, first: bool, fuel: usize) -> (r: Option<usize>)
    requires
        i <= v.len(),
    ensures
        match r {
            Some(e) => skip_members(v@, i as int, first, fuel as nat) == Some(e as int) && e <= v.len(),
            None => skip_members(v@, i as int, first, fuel as nat) is None,
        },
    decreases fuel,
{
    if fuel == 0 {
        return None;
    }
    if i >= v.len() {
        return None;
    }
    if first && v[i] == '}' {
        return Some(i + 1);
    }
    if v[i] != '"' {
        return None;
    }
    match parse_string_at(v, i + 1) {
        Some(p) => {
            let c = skip_ws(v, p.1);
            if !(c < v.len() && v[c] == ':') {
                return None;
            }
            match skip_value_at(v, skip_ws(v, c + 1), fuel - 1) {
                Some(e) => {
                    let t = skip_ws(v, e);
                    if t < v.len() && v[t] == ',' {
                        skip_members_at(v, skip_ws(v, t + 1), false, fuel - 1)
                    } else if t < v.len() && v[t] == '}' {
                        Some(t + 1)
                    } else {
                        None
                    }
                },
                None => None,
            }
        },
        None => None,
    }
}

/// Items of an array being skipped, exactly as [`skip_items`] describes
/// them.
fn skip_items_at(v: &Vec<char>, i: usize, first: bool, fuel: usize) -> (r: Option<usize>)
    requires
        i <= v.len(),
    ensures
        match r {
            Some(e) => skip_items(v@, i as int, first, fuel as nat) == Some(e as int) && e <= v.len(),
            None => skip_items(v@, i as int, first, fuel as nat) is None,
        },
    decreases fuel,
{
    if fuel == 0 {
        return None;
    }
    if i >= v.len() {
        return None;
    }
    if first && v[i] == ']' {
        return Some(i + 1);
    }
    match skip_value_at(v, i, fuel - 1) {
        Some(e) => {
            let t = skip_ws(v, e);
            if t < v.len() && v[t] == ',' {
                skip_items_at(v, skip_ws(v, t + 1), false, fuel - 1)
            } else if t < v.len() && v[t] == ']' {
                Some(t + 1)
            } else {
                None
            }
        },
        None => None,
    }
}

/// One member of the record object, exactly as [`parse_member`] describes
/// it.
fn parse_member_at(v: &Vec<char>, i: usize, idv: Option<i32>, nm: Option<Vec<char>>) -> (r: Option<(Option<i32>, Option<Vec<char>>, usize)>)
    requires
        i <= v.len(),
    ensures
        match r {
            Some(st) => parse_member(v@, i as int, opt_id_view(idv), opt_name_view(nm)) == Some((opt_id_view(st.0), opt_name_view(st.1), st.2 as int)) && st.2 <= v.len(),
            None => parse_member(v@, i as int, opt_id_view(idv), opt_name_view(nm)) is None,
        },
{
    if i >= v.len() {
        return None;
    }
    if v[i] != '"' {
        return None;
    }
    match parse_string_at(v, i + 1) {
        Some(kp) => {
            let (key, j) = kp;
            let c = skip_ws(v, j);
            if !(c < v.len() && v[c] == ':') {
                return None;
            }
            let vpos = skip_ws(v, c + 1);
            let is_id = key.len() == 2 && key[0] == 'i' && key[1] == 'd';
            let is_name = key.len() == 4 && key[0] == 'n' && key[1] == 'a' && key[2] == 'm' && key[3] == 'e';
            proof {
                if is_id {
                    assert(key@ =~= id_chars());
                } else {
                    if key@ == id_chars() {
                        assert(key@.len() == 2);
                        assert(key@[0] == 'i' && key@[1] == 'd');
                        assert(false);
                    }
                }
                if is_name {
                    assert(key@ =~= name_chars());
                } else {
                    if key@ == name_chars() {
                        assert(key@.len() == 4);
                        assert(key@[0] == 'n' && key@[1] == 'a' && key@[2] == 'm' && key@[3] == 'e');
                        assert(false);
                    }
                }
            }
            if is_id {
                if idv.is_some() {
                    return None;
                }
                match parse_int_at(v, vpos) {
                    Some((n, e)) => Some((Some(n), nm, e)),
                    None => None,
                }
            } else if is_name {
                if nm.is_some() {
                    return None;
                }
                if !(vpos < v.len() && v[vpos] == '"') {
                    return None;
                }
                match parse_string_at(v, vpos + 1) {
                    Some(p) => Some((idv, Some(p.0), p.1)),
                    None => None,
                }
            } else {
                match skip_value_at(v, vpos, v.len()) {
                    Some(e) => Some((idv, nm, e)),
                    None => None,
                }
            }
        },
        None => None,
    }
}

/// The member list of the record object, exactly as [`parse_members`]
/// describes it. Yields the two gathered members.
fn parse_members_at(v: &Vec<char>, i: usize, idv: Option<i32>, nm: Option<Vec<char>>, fuel: usize) -> (r: Option<(i32, Vec<char>)>)
    requires
        i <= v.len(),
    ensures
        match r {
            Some(p) => parse_members(v@, i as int, opt_id_view(idv), opt_name_view(nm), fuel as nat) == Some(UserView { id: p.0 as int, name: p.1@ }),
            None => parse_members(v@, i as int, opt_id_view(idv), opt_name_view(nm), fuel as nat) is None,
        },
    decreases fuel,
{
    if fuel == 0 {
        return None;
    }
    match parse_member_at(v, i, idv, nm) {
        Some(st) => {
            let (idv2, nm2, e) = st;
            let t = skip_ws(v, e);
            if t < v.len() && v[t] == ',' {
                let n = skip_ws(v, t + 1);
                parse_members_at(v, n, idv2, nm2, fuel - 1)
            } else if t < v.len() && v[t] == '}' {
                if skip_ws(v, t + 1) == v.len() {
                    match (idv2, nm2) {
                        (Some(n0), Some(m0)) => Some((n0, m0)),
                        _ => None,
                    }
                } else {
                    None
                }
            } else {
                None
            }
        },
        None => None,
    }
}

/// Decodes a request body into a user record, exactly as
/// [`parse_user_spec`] describes the accepted language: `Ok` for every
/// body of the accepted language, with the record it denotes, and
/// `MalformedRequest` for every other body.
pub fn parse_user(body: &str) -> (r: Result<User, crate::user::RequestError>)
    ensures
        match r {
            Ok(u) => parse_user_spec(body@) == Some(u@),
            Err(e) => parse_user_spec(body@) is None && e == crate::user::RequestError::MalformedRequest,
        },
{
    let v = chars_vec(body);
    let i0 = skip_ws(&v, 0);
    if !(i0 < v.len() && v[i0] == '{') {
        return Err(crate::user::RequestError::MalformedRequest);
    }
    let i1 = skip_ws(&v, i0 + 1);
    match parse_members_at(&v, i1, None, None, v.len()) {
        Some((n, m)) => Ok(User { id: n, name: string_of_chars(&m) }),
        None => Err(crate::user::RequestError::MalformedRequest),
    }
}

} // verus!
