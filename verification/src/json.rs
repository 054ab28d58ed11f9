//! The JSON record codec of the store's convenience layer: primitive
//! encoders and strict parsers for numbers, booleans, strings and string
//! arrays, with round-trip lemmas.  Records written by this library are
//! encoded here and read back here; text that does not parse is treated by
//! the callers as a cache miss, never as an error.
use vstd::prelude::*;

verus! {

// ---------------------------------------------------------------------------
// Spec encoders
// ---------------------------------------------------------------------------
/// The decimal digit character for `d`.
pub open spec fn digit_char(d: int) -> char {
    if d == 0 {
        '0'
    } else if d == 1 {
        '1'
    } else if d == 2 {
        '2'
    } else if d == 3 {
        '3'
    } else if d == 4 {
        '4'
    } else if d == 5 {
        '5'
    } else if d == 6 {
        '6'
    } else if d == 7 {
        '7'
    } else if d == 8 {
        '8'
    } else {
        '9'
    }
}

/// Decimal digits of `n`, most significant first, no leading zeros.
pub open spec fn dec_nat(n: nat) -> Seq<char>
    decreases n,
{
    if n < 10 {
        seq![digit_char(n as int)]
    } else {
        dec_nat(n / 10).push(digit_char((n % 10) as int))
    }
}

/// Decimal encoding of a signed value: a minus sign, then the magnitude.
pub open spec fn dec_int(n: int) -> Seq<char> {
    if n < 0 {
        seq!['-'] + dec_nat((-n) as nat)
    } else {
        dec_nat(n as nat)
    }
}

/// One character of a JSON string body: quote and backslash are escaped.
pub open spec fn esc_char(c: char) -> Seq<char> {
    if c == '"' || c == '\\' {
        seq!['\\', c]
    } else {
        seq![c]
    }
}

/// A JSON string body.
pub open spec fn esc_str(s: Seq<char>) -> Seq<char>
    decreases s.len(),
{
    if s.len() == 0 {
        Seq::empty()
    } else {
        esc_char(s[0]) + esc_str(s.drop_first())
    }
}

/// A JSON string, quotes included.
pub open spec fn enc_str(s: Seq<char>) -> Seq<char> {
    seq!['"'] + esc_str(s) + seq!['"']
}

pub open spec fn enc_bool(b: bool) -> Seq<char> {
    if b {
        seq!['t', 'r', 'u', 'e']
    } else {
        seq!['f', 'a', 'l', 's', 'e']
    }
}

/// The comma-joined body of a JSON array of strings.
pub open spec fn enc_str_list(ss: Seq<Seq<char>>) -> Seq<char>
    decreases ss.len(),
{
    if ss.len() == 0 {
        Seq::empty()
    } else if ss.len() == 1 {
        enc_str(ss[0])
    } else {
        enc_str(ss[0]) + seq![','] + enc_str_list(ss.drop_first())
    }
}

/// A JSON array of strings, brackets included.
pub open spec fn enc_str_array(ss: Seq<Seq<char>>) -> Seq<char> {
    seq!['['] + enc_str_list(ss) + seq![']']
}

// ---------------------------------------------------------------------------
// Spec parsers
// ---------------------------------------------------------------------------
pub open spec fn is_digit(c: char) -> bool {
    48 <= c as u32 <= 57
}

pub open spec fn digit_val(c: char) -> nat {
    (c as u32 - 48) as nat
}

/// Consume a maximal run of digits starting at `i`, folding them onto `acc`.
pub open spec fn sp_digits(s: Seq<char>, i: int, acc: nat) -> (nat, int)
    decreases s.len() - i,
{
    if 0 <= i < s.len() && is_digit(s[i]) {
        sp_digits(s, i + 1, acc * 10 + digit_val(s[i]))
    } else {
        (acc, i)
    }
}

/// Parse an unsigned decimal number without leading zeros.
pub open spec fn sp_nat(s: Seq<char>, i: int) -> Option<(nat, int)> {
    if 0 <= i < s.len() && is_digit(s[i]) {
        if s[i] == '0' && i + 1 < s.len() && is_digit(s[i + 1]) {
            None
        } else {
            Some(sp_digits(s, i, 0))
        }
    } else {
        None
    }
}

pub open spec fn sp_u64(s: Seq<char>, i: int) -> Option<(u64, int)> {
    match sp_nat(s, i) {
        Some((v, j)) => if v <= u64::MAX as nat {
            Some((v as u64, j))
        } else {
            None
        },
        None => None,
    }
}

pub open spec fn sp_i64(s: Seq<char>, i: int) -> Option<(i64, int)> {
    if 0 <= i < s.len() && s[i] == '-' {
        match sp_nat(s, i + 1) {
            Some((v, j)) => if 0 < v <= 0x8000_0000_0000_0000 as nat {
                Some(((-(v as int)) as i64, j))
            } else {
                None
            },
            None => None,
        }
    } else {
        match sp_nat(s, i) {
            Some((v, j)) => if v <= i64::MAX as nat {
                Some((v as i64, j))
            } else {
                None
            },
            None => None,
        }
    }
}

/// Expect the literal `lit` at position `i`.
pub open spec fn sp_lit(s: Seq<char>, i: int, lit: Seq<char>) -> Option<int> {
    if 0 <= i && i + lit.len() <= s.len() && s.subrange(i, i + lit.len()) == lit {
        Some(i + lit.len())
    } else {
        None
    }
}

/// Parse a string body up to the closing quote, unescaping as it goes.
pub open spec fn sp_str_chars(s: Seq<char>, i: int, acc: Seq<char>) -> Option<(Seq<char>, int)>
    decreases s.len() - i,
{
    if !(0 <= i < s.len()) {
        None
    } else if s[i] == '"' {
        Some((acc, i + 1))
    } else if s[i] == '\\' {
        if i + 1 < s.len() {
            sp_str_chars(s, i + 2, acc.push(s[i + 1]))
        } else {
            None
        }
    } else {
        sp_str_chars(s, i + 1, acc.push(s[i]))
    }
}

/// Parse a quoted string.
pub open spec fn sp_str(s: Seq<char>, i: int) -> Option<(Seq<char>, int)> {
    if 0 <= i < s.len() && s[i] == '"' {
        sp_str_chars(s, i + 1, Seq::empty())
    } else {
        None
    }
}

pub open spec fn sp_bool(s: Seq<char>, i: int) -> Option<(bool, int)> {
    if sp_lit(s, i, enc_bool(true)) is Some {
        Some((true, sp_lit(s, i, enc_bool(true)).unwrap()))
    } else if sp_lit(s, i, enc_bool(false)) is Some {
        Some((false, sp_lit(s, i, enc_bool(false)).unwrap()))
    } else {
        None
    }
}

/// Parse the items of a non-empty string array after the opening bracket.
/// Recursion is guarded on forward progress, which every string parse makes.
pub open spec fn sp_str_items(s: Seq<char>, i: int, acc: Seq<Seq<char>>) -> Option<
    (Seq<Seq<char>>, int),
>
    decreases s.len() - i,
{
    match sp_str(s, i) {
        Some((t, j)) => if j < s.len() && s[j] == ',' {
            if i < j + 1 <= s.len() {
                sp_str_items(s, j + 1, acc.push(t))
            } else {
                None
            }
        } else if j < s.len() && s[j] == ']' {
            Some((acc.push(t), j + 1))
        } else {
            None
        },
        None => None,
    }
}

/// Parse a JSON array of strings, brackets included.
pub open spec fn sp_str_array(s: Seq<char>, i: int) -> Option<(Seq<Seq<char>>, int)> {
    if 0 <= i < s.len() && s[i] == '[' {
        if i + 1 < s.len() && s[i + 1] == ']' {
            Some((Seq::empty(), i + 2))
        } else {
            sp_str_items(s, i + 1, Seq::empty())
        }
    } else {
        None
    }
}

// ---------------------------------------------------------------------------
// Exec encoders
// ---------------------------------------------------------------------------
/// Relies on std's `String::push`: appends exactly the one character.
#[verifier::external_body]
pub fn push_char(out: &mut String, c: char)
    ensures
        final(out)@ == old(out)@.push(c),
{
    out.push(c);
}

/// The digit character for `d`.
pub fn digit_char_exec(d: u64) -> (c: char)
    requires
        d < 10,
    ensures
        c == digit_char(d as int),
{
    match d {
        0 => '0',
        1 => '1',
        2 => '2',
        3 => '3',
        4 => '4',
        5 => '5',
        6 => '6',
        7 => '7',
        8 => '8',
        _ => '9',
    }
}

/// Append the decimal digits of `n`.
pub fn push_u64(out: &mut String, n: u64)
    ensures
        final(out)@ == old(out)@ + dec_nat(n as nat),
    decreases n,
{
    if n < 10 {
        push_char(out, digit_char_exec(n));
        proof {
            assert(final(out)@ =~= old(out)@ + dec_nat(n as nat));
        }
    } else {
        push_u64(out, n / 10);
        push_char(out, digit_char_exec(n % 10));
        proof {
            assert(final(out)@ =~= old(out)@ + dec_nat(n as nat));
        }
    }
}

/// Append the decimal encoding of a signed value.
pub fn push_i64(out: &mut String, n: i64)
    ensures
        final(out)@ == old(out)@ + dec_int(n as int),
{
    if n < 0 {
        push_char(out, '-');
        let mag: u64 = if n == i64::MIN {
            9223372036854775808u64
        } else {
            (-n) as u64
        };
        proof {
            assert(mag as nat == (-(n as int)) as nat);
        }
        push_u64(out, mag);
        proof {
            assert(final(out)@ =~= old(out)@ + dec_int(n as int));
        }
    } else {
        push_u64(out, n as u64);
        proof {
            assert(final(out)@ =~= old(out)@ + dec_int(n as int));
        }
    }
}

/// `esc_str` distributes over appending one character.
pub proof fn lemma_esc_str_snoc(t: Seq<char>, c: char)
    ensures
        esc_str(t.push(c)) == esc_str(t) + esc_char(c),
    decreases t.len(),
{
    if t.len() == 0 {
        assert(t.push(c).drop_first() =~= Seq::<char>::empty());
        assert(t.push(c)[0] == c);
        assert(esc_str(t.push(c)) == esc_char(c) + esc_str(Seq::<char>::empty()));
        assert(esc_str(t.push(c)) =~= esc_str(t) + esc_char(c));
    } else {
        assert(t.push(c).drop_first() =~= t.drop_first().push(c));
        lemma_esc_str_snoc(t.drop_first(), c);
        assert(t.push(c)[0] == t[0]);
        assert(esc_str(t.push(c)) == esc_char(t[0]) + esc_str(t.drop_first().push(c)));
        assert(esc_str(t.push(c)) =~= esc_str(t) + esc_char(c));
    }
}

/// Append a quoted, escaped JSON string.
pub fn push_quoted(out: &mut String, s: &str)
    ensures
        final(out)@ == old(out)@ + enc_str(s@),
{
    let ghost orig = out@;
    push_char(out, '"');
    let len: usize = s.unicode_len();
    let mut i: usize = 0;
    while i < len
        invariant
            i <= len,
            len == s@.len(),
            out@ == orig + seq!['"'] + esc_str(s@.subrange(0, i as int)),
        decreases len - i,
    {
        let c = s.get_char(i);
        if c == '"' || c == '\\' {
            push_char(out, '\\');
            push_char(out, c);
        } else {
            push_char(out, c);
        }
        proof {
            lemma_esc_str_snoc(s@.subrange(0, i as int), c);
            assert(s@.subrange(0, i + 1) =~= s@.subrange(0, i as int).push(c));
            assert(out@ =~= orig + seq!['"'] + esc_str(s@.subrange(0, i + 1)));
        }
        i = i + 1;
    }
    push_char(out, '"');
    proof {
        assert(s@.subrange(0, len as int) =~= s@);
        assert(out@ =~= orig + enc_str(s@));
    }
}

pub fn push_bool(out: &mut String, b: bool)
    ensures
        final(out)@ == old(out)@ + enc_bool(b),
{
    if b {
        out.append("true");
        proof {
            reveal_strlit("true");
            assert(final(out)@ =~= old(out)@ + enc_bool(b));
        }
    } else {
        out.append("false");
        proof {
            reveal_strlit("false");
            assert(final(out)@ =~= old(out)@ + enc_bool(b));
        }
    }
}

/// `enc_str_list` distributes over appending one item.
pub proof fn lemma_enc_str_list_snoc(ss: Seq<Seq<char>>, t: Seq<char>)
    ensures
        ss.len() == 0 ==> enc_str_list(ss.push(t)) == enc_str(t),
        ss.len() > 0 ==> enc_str_list(ss.push(t)) == enc_str_list(ss) + seq![','] + enc_str(t),
    decreases ss.len(),
{
    if ss.len() == 0 {
        assert(ss.push(t)[0] == t);
        assert(enc_str_list(ss.push(t)) =~= enc_str(t));
    } else {
        assert(ss.push(t).drop_first() =~= ss.drop_first().push(t));
        lemma_enc_str_list_snoc(ss.drop_first(), t);
        if ss.len() == 1 {
            assert(enc_str_list(ss.push(t)) =~= enc_str_list(ss) + seq![','] + enc_str(t));
        } else {
            assert(enc_str_list(ss.push(t)) =~= enc_str_list(ss) + seq![','] + enc_str(t));
        }
    }
}

/// Append a JSON array of strings.
pub fn push_str_array(out: &mut String, items: &Vec<String>)
    ensures
        final(out)@ == old(out)@ + enc_str_array(items.deep_view()),
{
    let ghost orig = out@;
    let ghost ssv = items.deep_view();
    push_char(out, '[');
    let mut i: usize = 0;
    while i < items.len()
        invariant
            i <= items.len(),
            ssv == items.deep_view(),
            ssv.len() == items.len(),
            forall|k: int| 0 <= k < items.len() ==> ssv[k] == items[k]@,
            out@ == orig + seq!['['] + enc_str_list(ssv.subrange(0, i as int)),
        decreases items.len() - i,
    {
        if i > 0 {
            push_char(out, ',');
        }
        push_quoted(out, items[i].as_str());
        proof {
            lemma_enc_str_list_snoc(ssv.subrange(0, i as int), ssv[i as int]);
            assert(ssv.subrange(0, i + 1) =~= ssv.subrange(0, i as int).push(ssv[i as int]));
            assert(out@ =~= orig + seq!['['] + enc_str_list(ssv.subrange(0, i + 1)));
        }
        i = i + 1;
    }
    push_char(out, ']');
    proof {
        assert(ssv.subrange(0, items.len() as int) =~= ssv);
        assert(out@ =~= orig + enc_str_array(ssv));
    }
}

// ---------------------------------------------------------------------------
// Exec parsers
// ---------------------------------------------------------------------------
pub fn is_digit_exec(c: char) -> (r: bool)
    ensures
        r == is_digit(c),
{
    let u = c as u32;
    48 <= u && u <= 57
}

/// Parse an unsigned decimal number at `i`.
pub fn parse_u64(s: &str, i: usize) -> (r: Option<(u64, usize)>)
    ensures
        match r {
            Some((v, j)) => sp_u64(s@, i as int) == Some((v, j as int)) && j <= s@.len(),
            None => sp_u64(s@, i as int) is None,
        },
{
    let len: usize = s.unicode_len();
    if i >= len {
        return None;
    }
    let c0 = s.get_char(i);
    if !is_digit_exec(c0) {
        return None;
    }
    if c0 == '0' && i + 1 < len && is_digit_exec(s.get_char(i + 1)) {
        return None;
    }
    let mut j: usize = i;
    let mut acc: u64 = 0;
    while j < len && is_digit_exec(s.get_char(j))
        invariant
            i <= j <= len,
            len == s@.len(),
            sp_nat(s@, i as int) == Some(sp_digits(s@, i as int, 0)),
            sp_u64(s@, i as int) == (match sp_digits(s@, i as int, 0) {
                (v, k) => if v <= u64::MAX as nat {
                    Some((v as u64, k))
                } else {
                    None::<(u64, int)>
                },
            }),
            sp_digits(s@, i as int, 0) == sp_digits(s@, j as int, acc as nat),
        decreases len - j,
    {
        let c = s.get_char(j);
        let d: u64 = (c as u32 - 48) as u64;
        proof {
            assert(d as nat == digit_val(s@[j as int]));
        }
        let step = acc.checked_mul(10);
        if step.is_none() {
            proof {
                lemma_sp_digits_lower(s@, j + 1, acc as nat * 10 + digit_val(s@[j as int]));
            }
            return None;
        }
        let next = step.unwrap().checked_add(d);
        if next.is_none() {
            proof {
                lemma_sp_digits_lower(s@, j + 1, acc as nat * 10 + digit_val(s@[j as int]));
            }
            return None;
        }
        acc = next.unwrap();
        j = j + 1;
    }
    Some((acc, j))
}

/// `sp_digits` never yields less than what is already accumulated, and its
/// end position never runs backwards or past the end.
pub proof fn lemma_sp_digits_lower(s: Seq<char>, i: int, acc: nat)
    ensures
        sp_digits(s, i, acc).0 >= acc,
        sp_digits(s, i, acc).1 >= i,
        i <= s.len() ==> sp_digits(s, i, acc).1 <= s.len(),
    decreases s.len() - i,
{
    if 0 <= i < s.len() && is_digit(s[i]) {
        lemma_sp_digits_lower(s, i + 1, acc * 10 + digit_val(s[i]));
    }
}

/// Parse a signed decimal number at `i`.
pub fn parse_i64(s: &str, i: usize) -> (r: Option<(i64, usize)>)
    ensures
        match r {
            Some((v, j)) => sp_i64(s@, i as int) == Some((v, j as int)) && j <= s@.len(),
            None => sp_i64(s@, i as int) is None,
        },
{
    let len: usize = s.unicode_len();
    if i >= len {
        return None;
    }
    if s.get_char(i) == '-' {
        match parse_u64(s, i + 1) {
            Some((m, j)) => {
                if 0 < m && m <= 9223372036854775808u64 {
                    let v: i64 = if m == 9223372036854775808u64 {
                        i64::MIN
                    } else {
                        -(m as i64)
                    };
                    Some((v, j))
                } else {
                    None
                }
            },
            None => {
                proof {
                    if sp_nat(s@, i + 1) is Some {
                        let (v, _k) = sp_nat(s@, i + 1).unwrap();
                        assert(v > u64::MAX as nat);
                    }
                }
                None
            },
        }
    } else {
        match parse_u64(s, i) {
            Some((m, j)) => {
                if m <= i64::MAX as u64 {
                    Some((m as i64, j))
                } else {
                    None
                }
            },
            None => {
                proof {
                    if sp_nat(s@, i as int) is Some {
                        let (v, _k) = sp_nat(s@, i as int).unwrap();
                        assert(v > u64::MAX as nat);
                    }
                }
                None
            },
        }
    }
}

/// Expect the literal `lit` at `i`.
pub fn parse_lit(s: &str, i: usize, lit: &str) -> (r: Option<usize>)
    ensures
        match r {
            Some(j) => sp_lit(s@, i as int, lit@) == Some(j as int) && j <= s@.len(),
            None => sp_lit(s@, i as int, lit@) is None,
        },
{
    let len: usize = s.unicode_len();
    let llen: usize = lit.unicode_len();
    if i > len || llen > len - i {
        return None;
    }
    let mut k: usize = 0;
    while k < llen
        invariant
            0 <= k <= llen,
            i + llen <= len,
            len == s@.len(),
            llen == lit@.len(),
            s@.subrange(i as int, i + k) == lit@.subrange(0, k as int),
        decreases llen - k,
    {
        if s.get_char(i + k) as u32 != lit.get_char(k) as u32 {
            proof {
                assert(s@.subrange(i as int, i + lit@.len())[k as int] == s@[i + k]);
                crate::order::lemma_char_inj(s@[i + k], lit@[k as int]);
            }
            return None;
        }
        proof {
            crate::order::lemma_char_inj(s@[i + k], lit@[k as int]);
            assert(s@.subrange(i as int, i + k + 1) =~= lit@.subrange(0, k + 1));
        }
        k = k + 1;
    }
    proof {
        assert(lit@.subrange(0, lit@.len() as int) =~= lit@);
    }
    Some(i + llen)
}

/// Parse a quoted string at `i`.
pub fn parse_string(s: &str, i: usize) -> (r: Option<(String, usize)>)
    ensures
        match r {
            Some((t, j)) => sp_str(s@, i as int) == Some((t@, j as int)) && i < j <= s@.len(),
            None => sp_str(s@, i as int) is None,
        },
{
    let len: usize = s.unicode_len();
    if i >= len {
        return None;
    }
    if s.get_char(i) != '"' {
        return None;
    }
    let mut j: usize = i + 1;
    let mut acc = String::new();
    loop
        invariant
            i + 1 <= j <= len,
            len == s@.len(),
            i < s@.len() && s@[i as int] == '"',
            sp_str(s@, i as int) == sp_str_chars(s@, j as int, acc@),
        decreases len - j,
    {
        if j >= len {
            return None;
        }
        let c = s.get_char(j);
        if c == '"' {
            return Some((acc, j + 1));
        }
        if c == '\\' {
            if j + 1 < len {
                push_char(&mut acc, s.get_char(j + 1));
                j = j + 2;
            } else {
                return None;
            }
        } else {
            push_char(&mut acc, c);
            j = j + 1;
        }
    }
}

/// Parse `true` or `false` at `i`.
pub fn parse_bool(s: &str, i: usize) -> (r: Option<(bool, usize)>)
    ensures
        match r {
            Some((b, j)) => sp_bool(s@, i as int) == Some((b, j as int)) && j <= s@.len(),
            None => sp_bool(s@, i as int) is None,
        },
{
    proof {
        reveal_strlit("true");
        reveal_strlit("false");
        assert("true"@ =~= enc_bool(true));
        assert("false"@ =~= enc_bool(false));
    }
    match parse_lit(s, i, "true") {
        Some(j) => Some((true, j)),
        None => {
            match parse_lit(s, i, "false") {
                Some(j) => Some((false, j)),
                None => None,
            }
        },
    }
}

/// Parse a JSON array of strings at `i`.
pub fn parse_str_array(s: &str, i: usize) -> (r: Option<(Vec<String>, usize)>)
    ensures
        match r {
            Some((ts, j)) => sp_str_array(s@, i as int) == Some((ts.deep_view(), j as int)) && j
                <= s@.len(),
            None => sp_str_array(s@, i as int) is None,
        },
{
    let len: usize = s.unicode_len();
    if i >= len {
        return None;
    }
    if s.get_char(i) != '[' {
        return None;
    }
    if i + 1 < len && s.get_char(i + 1) == ']' {
        let empty: Vec<String> = Vec::new();
        proof {
            assert(empty.deep_view() =~= Seq::<Seq<char>>::empty());
        }
        return Some((empty, i + 2));
    }
    let mut j: usize = i + 1;
    let mut acc: Vec<String> = Vec::new();
    proof {
        assert(acc.deep_view() =~= Seq::<Seq<char>>::empty());
    }
    loop
        invariant
            i + 1 <= j <= len,
            len == s@.len(),
            i < s@.len() && s@[i as int] == '[',
            !(i + 1 < s@.len() && s@[i + 1] == ']'),
            sp_str_array(s@, i as int) == sp_str_items(s@, j as int, acc.deep_view()),
        decreases len - j,
    {
        let ghost acc0 = acc.deep_view();
        match parse_string(s, j) {
            Some((t, k)) => {
                if k < len && s.get_char(k) == ',' {
                    acc.push(t);
                    proof {
                        assert(acc.deep_view() =~= acc0.push(t@));
                    }
                    j = k + 1;
                } else if k < len && s.get_char(k) == ']' {
                    acc.push(t);
                    proof {
                        assert(acc.deep_view() =~= acc0.push(t@));
                    }
                    return Some((acc, k + 1));
                } else {
                    return None;
                }
            },
            None => {
                return None;
            },
        }
    }
}

// ---------------------------------------------------------------------------
// Round-trip lemmas: a strict parser applied to an encoder's output yields
// the encoded value and stops right after it.
// ---------------------------------------------------------------------------
pub open spec fn pow10(k: nat) -> nat
    decreases k,
{
    if k == 0 {
        1
    } else {
        10 * pow10((k - 1) as nat)
    }
}

/// The digit characters are digits with the expected values.
pub proof fn lemma_digit_char(d: int)
    requires
        0 <= d <= 9,
    ensures
        is_digit(digit_char(d)),
        digit_val(digit_char(d)) == d,
        digit_char(d) == '0' <==> d == 0,
{
}

/// Shape of a decimal encoding: non-empty, all digits, no leading zero.
pub proof fn lemma_dec_nat_props(n: nat)
    ensures
        dec_nat(n).len() >= 1,
        forall|j: int| 0 <= j < dec_nat(n).len() ==> is_digit(#[trigger] dec_nat(n)[j]),
        n >= 1 ==> dec_nat(n)[0] != '0',
        n == 0 ==> dec_nat(n) == seq!['0'],
    decreases n,
{
    if n < 10 {
        lemma_digit_char(n as int);
        if n == 0 {
            assert(dec_nat(n) =~= seq!['0']);
        }
    } else {
        lemma_dec_nat_props(n / 10);
        lemma_digit_char((n % 10) as int);
        assert(dec_nat(n)[0] == dec_nat(n / 10)[0]);
        assert forall|j: int| 0 <= j < dec_nat(n).len() implies is_digit(#[trigger] dec_nat(n)[j])
        by {
            if j < dec_nat(n / 10).len() {
                assert(dec_nat(n)[j] == dec_nat(n / 10)[j]);
            } else {
                assert(dec_nat(n)[j] == digit_char((n % 10) as int));
            }
        }
    }
}

/// Running the digit folder across the decimal encoding of `n` scales the
/// accumulator and adds `n`.
pub proof fn lemma_sp_digits_through(s: Seq<char>, i: int, acc: nat, n: nat)
    requires
        0 <= i,
        i + dec_nat(n).len() <= s.len(),
        s.subrange(i, i + dec_nat(n).len()) == dec_nat(n),
    ensures
        sp_digits(s, i, acc) == sp_digits(
            s,
            i + dec_nat(n).len(),
            acc * pow10(dec_nat(n).len()) + n,
        ),
    decreases n,
{
    let l = dec_nat(n).len();
    if n < 10 {
        lemma_digit_char(n as int);
        assert(s[i] == s.subrange(i, i + 1)[0]);
        assert(s[i] == digit_char(n as int));
        assert(acc * pow10(1) + n == acc * 10 + n) by {
            assert(pow10(1) == 10 * pow10(0));
        }
    } else {
        let l1 = dec_nat(n / 10).len();
        assert(s.subrange(i, i + l1) =~= dec_nat(n / 10)) by {
            assert forall|j: int| 0 <= j < l1 implies #[trigger] (s.subrange(i, i + l1)[j])
                == dec_nat(n / 10)[j]
            by {
                assert(s.subrange(i, i + l as int)[j] == dec_nat(n)[j]);
                assert(dec_nat(n)[j] == dec_nat(n / 10)[j]);
            }
        }
        lemma_sp_digits_through(s, i, acc, n / 10);
        let acc2 = acc * pow10(l1) + n / 10;
        lemma_digit_char((n % 10) as int);
        assert(s[i + l1] == dec_nat(n)[l - 1]) by {
            assert(s.subrange(i, i + l as int)[l - 1] == dec_nat(n)[l - 1]);
        }
        assert(s[i + l1] == digit_char((n % 10) as int));
        assert(sp_digits(s, i + l1, acc2) == sp_digits(s, i + l as int, acc2 * 10 + n % 10));
        assert(acc2 * 10 + n % 10 == acc * pow10(l) + n) by {
            assert(pow10(l) == 10 * pow10(l1));
            assert(acc * pow10(l1) * 10 == acc * (10 * pow10(l1))) by (nonlinear_arith);
            vstd::arithmetic::div_mod::lemma_fundamental_div_mod(n as int, 10);
        }
    }
}

/// Parsing an unsigned number straight out of its encoding.
pub proof fn lemma_roundtrip_nat(s: Seq<char>, i: int, n: nat)
    requires
        0 <= i,
        i + dec_nat(n).len() <= s.len(),
        s.subrange(i, i + dec_nat(n).len()) == dec_nat(n),
        i + dec_nat(n).len() == s.len() || !is_digit(s[i + dec_nat(n).len()]),
    ensures
        sp_nat(s, i) == Some((n, i + dec_nat(n).len())),
{
    let l = dec_nat(n).len();
    lemma_dec_nat_props(n);
    assert(s[i] == dec_nat(n)[0]) by {
        assert(s.subrange(i, i + l as int)[0] == dec_nat(n)[0]);
    }
    assert(is_digit(s[i]));
    if s[i] == '0' && i + 1 < s.len() && is_digit(s[i + 1]) {
        // a zero encoding is one character long, so the follower is no digit
        assert(n == 0);
        assert(l == 1);
        assert(false);
    }
    lemma_sp_digits_through(s, i, 0, n);
    assert(0 * pow10(l) + n == n);
    assert(sp_digits(s, i + l as int, n) == (n, i + l as int));
}

pub proof fn lemma_roundtrip_u64(s: Seq<char>, i: int, n: u64)
    requires
        0 <= i,
        i + dec_nat(n as nat).len() <= s.len(),
        s.subrange(i, i + dec_nat(n as nat).len()) == dec_nat(n as nat),
        i + dec_nat(n as nat).len() == s.len() || !is_digit(s[i + dec_nat(n as nat).len()]),
    ensures
        sp_u64(s, i) == Some((n, i + dec_nat(n as nat).len())),
{
    lemma_roundtrip_nat(s, i, n as nat);
}

pub proof fn lemma_roundtrip_i64(s: Seq<char>, i: int, m: i64)
    requires
        0 <= i,
        i + dec_int(m as int).len() <= s.len(),
        s.subrange(i, i + dec_int(m as int).len()) == dec_int(m as int),
        i + dec_int(m as int).len() == s.len() || !is_digit(s[i + dec_int(m as int).len()]),
    ensures
        sp_i64(s, i) == Some((m, i + dec_int(m as int).len())),
{
    let e = dec_int(m as int);
    if m >= 0 {
        lemma_dec_nat_props(m as nat);
        assert(s[i] == e[0]) by {
            assert(s.subrange(i, i + e.len() as int)[0] == e[0]);
        }
        assert(is_digit(s[i]));
        assert(s[i] != '-') by {
            assert(('-') as u32 == 45);
        }
        lemma_roundtrip_nat(s, i, m as nat);
    } else {
        let mag = (-(m as int)) as nat;
        assert(s[i] == '-') by {
            assert(s.subrange(i, i + e.len() as int)[0] == e[0]);
            assert(e[0] == '-');
        }
        assert(s.subrange(i + 1, i + 1 + dec_nat(mag).len() as int) =~= dec_nat(mag)) by {
            assert forall|j: int| 0 <= j < dec_nat(mag).len() implies s.subrange(
                i + 1,
                i + 1 + dec_nat(mag).len() as int,
            )[j] == dec_nat(mag)[j] by {
                assert(s.subrange(i, i + e.len() as int)[j + 1] == e[j + 1]);
                assert(e[j + 1] == dec_nat(mag)[j]);
            }
        }
        lemma_roundtrip_nat(s, i + 1, mag);
        assert(0 < mag <= 0x8000_0000_0000_0000 as nat);
        assert((-(mag as int)) as i64 == m);
    }
}

/// One character of a known subrange.
pub proof fn lemma_index_of_subrange(s: Seq<char>, i: int, e: Seq<char>, j: int)
    requires
        0 <= i,
        i + e.len() <= s.len(),
        s.subrange(i, i + e.len()) == e,
        0 <= j < e.len(),
    ensures
        s[i + j] == e[j],
{
    assert(s.subrange(i, i + e.len() as int)[j] == e[j]);
}

/// Parsing a string body straight out of its escaped encoding.
pub proof fn lemma_sp_chars_through(s: Seq<char>, i: int, acc: Seq<char>, t: Seq<char>)
    requires
        0 <= i,
        i + esc_str(t).len() < s.len(),
        s.subrange(i, i + esc_str(t).len()) == esc_str(t),
        s[i + esc_str(t).len()] == '"',
    ensures
        sp_str_chars(s, i, acc) == Some((acc + t, i + esc_str(t).len() + 1)),
    decreases t.len(),
{
    let e = esc_str(t);
    if t.len() == 0 {
        assert(e.len() == 0);
        assert(s[i] == '"');
        assert(acc + t =~= acc);
    } else {
        let c = t[0];
        let e1 = esc_char(c);
        let erest = esc_str(t.drop_first());
        assert(e == e1 + erest);
        assert(s.subrange(i + e1.len(), i + e1.len() + erest.len() as int) =~= erest) by {
            assert forall|j: int| 0 <= j < erest.len() implies s.subrange(
                i + e1.len(),
                i + e1.len() + erest.len() as int,
            )[j] == erest[j] by {
                lemma_index_of_subrange(s, i, e, e1.len() + j);
                assert(e[e1.len() + j] == erest[j]);
            }
        }
        if c == '"' || c == '\\' {
            assert(s[i] == '\\') by {
                lemma_index_of_subrange(s, i, e, 0);
                assert(e[0] == '\\');
            }
            assert(s[i + 1] == c) by {
                lemma_index_of_subrange(s, i, e, 1);
                assert(e[1] == c);
            }
            assert(s[i] != '"') by {
                assert(('"') as u32 == 34 && ('\\') as u32 == 92);
            }
            assert(i + 1 < s.len());
            lemma_sp_chars_through(s, i + 2, acc.push(c), t.drop_first());
            assert(acc.push(c) + t.drop_first() =~= acc + t);
        } else {
            assert(s[i] == c) by {
                lemma_index_of_subrange(s, i, e, 0);
                assert(e[0] == c);
            }
            lemma_sp_chars_through(s, i + 1, acc.push(c), t.drop_first());
            assert(acc.push(c) + t.drop_first() =~= acc + t);
        }
    }
}

pub proof fn lemma_roundtrip_str(s: Seq<char>, i: int, t: Seq<char>)
    requires
        0 <= i,
        i + enc_str(t).len() <= s.len(),
        s.subrange(i, i + enc_str(t).len()) == enc_str(t),
    ensures
        sp_str(s, i) == Some((t, i + enc_str(t).len())),
{
    let e = enc_str(t);
    assert(s[i] == '"') by {
        lemma_index_of_subrange(s, i, e, 0);
        assert(e[0] == '"');
    }
    assert(s.subrange(i + 1, i + 1 + esc_str(t).len() as int) =~= esc_str(t)) by {
        assert forall|j: int| 0 <= j < esc_str(t).len() implies s.subrange(
            i + 1,
            i + 1 + esc_str(t).len() as int,
        )[j] == esc_str(t)[j] by {
            lemma_index_of_subrange(s, i, e, 1 + j);
            assert(e[1 + j] == esc_str(t)[j]);
        }
    }
    assert(s[i + 1 + esc_str(t).len()] == '"') by {
        lemma_index_of_subrange(s, i, e, e.len() - 1);
        assert(e[e.len() - 1] == '"');
    }
    lemma_sp_chars_through(s, i + 1, Seq::empty(), t);
    assert(Seq::empty() + t =~= t);
}

pub proof fn lemma_roundtrip_bool(s: Seq<char>, i: int, b: bool)
    requires
        0 <= i,
        i + enc_bool(b).len() <= s.len(),
        s.subrange(i, i + enc_bool(b).len()) == enc_bool(b),
    ensures
        sp_bool(s, i) == Some((b, i + enc_bool(b).len())),
{
    if b {
        assert(sp_lit(s, i, enc_bool(true)) == Some(i + 4));
    } else {
        assert(s[i] == 'f') by {
            assert(s.subrange(i, i + 5)[0] == enc_bool(false)[0]);
        }
        assert(sp_lit(s, i, enc_bool(true)) is None) by {
            if i + 4 <= s.len() && s.subrange(i, i + 4) == enc_bool(true) {
                assert(s.subrange(i, i + 4)[0] == 't');
            }
        }
        assert(sp_lit(s, i, enc_bool(false)) == Some(i + 5));
    }
}

/// Parsing the items of a non-empty array straight out of their encoding.
pub proof fn lemma_sp_items_through(s: Seq<char>, i: int, acc: Seq<Seq<char>>, ss: Seq<Seq<char>>)
    requires
        ss.len() >= 1,
        0 <= i,
        i + enc_str_list(ss).len() + 1 <= s.len(),
        s.subrange(i, i + enc_str_list(ss).len()) == enc_str_list(ss),
        s[i + enc_str_list(ss).len()] == ']',
    ensures
        sp_str_items(s, i, acc) == Some((acc + ss, i + enc_str_list(ss).len() + 1)),
    decreases ss.len(),
{
    let e = enc_str_list(ss);
    let e0 = enc_str(ss[0]);
    if ss.len() == 1 {
        assert(e == e0);
        assert(s.subrange(i, i + e0.len() as int) =~= e0);
        lemma_roundtrip_str(s, i, ss[0]);
        let j = i + e0.len();
        assert(s[j] == ']');
        assert(s[j] != ',') by {
            assert((',') as u32 == 44 && (']') as u32 == 93);
        }
        assert(acc.push(ss[0]) =~= acc + ss);
    } else {
        let erest = enc_str_list(ss.drop_first());
        assert(e == e0 + seq![','] + erest);
        assert(s.subrange(i, i + e0.len() as int) =~= e0) by {
            assert forall|j: int| 0 <= j < e0.len() implies s.subrange(i, i + e0.len() as int)[j]
                == e0[j] by {
                lemma_index_of_subrange(s, i, e, j);
                assert(e[j] == e0[j]);
            }
        }
        lemma_roundtrip_str(s, i, ss[0]);
        let j = i + e0.len();
        assert(s[j] == ',') by {
            lemma_index_of_subrange(s, i, e, e0.len() as int);
            assert(e[e0.len() as int] == ',');
        }
        assert(s.subrange(j + 1, j + 1 + erest.len() as int) =~= erest) by {
            assert forall|k: int| 0 <= k < erest.len() implies s.subrange(
                j + 1,
                j + 1 + erest.len() as int,
            )[k] == erest[k] by {
                lemma_index_of_subrange(s, i, e, e0.len() + 1 + k);
                assert(e[e0.len() + 1 + k] == erest[k]);
            }
        }
        lemma_sp_items_through(s, j + 1, acc.push(ss[0]), ss.drop_first());
        assert(acc.push(ss[0]) + ss.drop_first() =~= acc + ss);
    }
}

pub proof fn lemma_roundtrip_str_array(s: Seq<char>, i: int, ss: Seq<Seq<char>>)
    requires
        0 <= i,
        i + enc_str_array(ss).len() <= s.len(),
        s.subrange(i, i + enc_str_array(ss).len()) == enc_str_array(ss),
    ensures
        sp_str_array(s, i) == Some((ss, i + enc_str_array(ss).len())),
{
    let e = enc_str_array(ss);
    assert(s[i] == '[') by {
        lemma_index_of_subrange(s, i, e, 0);
        assert(e[0] == '[');
    }
    if ss.len() == 0 {
        assert(e =~= seq!['[', ']']);
        assert(s[i + 1] == ']') by {
            lemma_index_of_subrange(s, i, e, 1);
        }
    } else {
        let el = enc_str_list(ss);
        assert(s[i + 1] == el[0]) by {
            lemma_index_of_subrange(s, i, e, 1);
            assert(e[1] == el[0]);
        }
        assert(el[0] == enc_str(ss[0])[0]);
        assert(el[0] == '"');
        assert(s[i + 1] != ']') by {
            assert(('"') as u32 == 34 && (']') as u32 == 93);
        }
        assert(s.subrange(i + 1, i + 1 + el.len() as int) =~= el) by {
            assert forall|k: int| 0 <= k < el.len() implies s.subrange(
                i + 1,
                i + 1 + el.len() as int,
            )[k] == el[k] by {
                lemma_index_of_subrange(s, i, e, 1 + k);
                assert(e[1 + k] == el[k]);
            }
        }
        assert(s[i + 1 + el.len()] == ']') by {
            lemma_index_of_subrange(s, i, e, e.len() - 1);
            assert(e[e.len() - 1] == ']');
        }
        lemma_sp_items_through(s, i + 1, Seq::empty(), ss);
        assert(Seq::empty() + ss =~= ss);
    }
}

/// Split a known concatenation at `i` into its two halves.
pub proof fn lemma_subrange_split(s: Seq<char>, i: int, a: Seq<char>, b: Seq<char>)
    requires
        0 <= i,
        i + a.len() + b.len() <= s.len(),
        s.subrange(i, i + a.len() + b.len()) == a + b,
    ensures
        s.subrange(i, i + a.len()) == a,
        s.subrange(i + a.len(), i + a.len() + b.len()) == b,
{
    assert(s.subrange(i, i + a.len() as int) =~= a) by {
        assert forall|j: int| 0 <= j < a.len() implies s.subrange(i, i + a.len() as int)[j] == a[j]
        by {
            assert(s.subrange(i, i + a.len() + b.len() as int)[j] == (a + b)[j]);
        }
    }
    assert(s.subrange(i + a.len(), i + a.len() + b.len() as int) =~= b) by {
        assert forall|j: int| 0 <= j < b.len() implies s.subrange(
            i + a.len(),
            i + a.len() + b.len() as int,
        )[j] == b[j] by {
            assert(s.subrange(i, i + a.len() + b.len() as int)[a.len() + j] == (a + b)[a.len()
                + j]);
            assert((a + b)[a.len() + j] == b[j]);
        }
    }
}

/// The sixteen segments of a concatenation chain each occupy their own
/// subrange, at cumulative offsets.
#[verifier::rlimit(100)]
#[verifier::spinoff_prover]
pub proof fn lemma_subrange_chain(s: Seq<char>, a0: Seq<char>, a1: Seq<char>, a2: Seq<char>, a3: Seq<char>, a4: Seq<char>, a5: Seq<char>, a6: Seq<char>, a7: Seq<char>, a8: Seq<char>, a9: Seq<char>, a10: Seq<char>, a11: Seq<char>, a12: Seq<char>, a13: Seq<char>, a14: Seq<char>)
    requires
        s == a0 + (a1 + (a2 + (a3 + (a4 + (a5 + (a6 + (a7 + (a8 + (a9 + (a10 + (a11 + (a12 + (a13 + (a14)))))))))))))),
    ensures
        s.subrange((0) as int, (0 + a0.len()) as int) == a0,
        s.subrange((a0.len()) as int, (a0.len() + a1.len()) as int) == a1,
        s.subrange((a0.len() + a1.len()) as int, (a0.len() + a1.len() + a2.len()) as int) == a2,
        s.subrange((a0.len() + a1.len() + a2.len()) as int, (a0.len() + a1.len() + a2.len() + a3.len()) as int) == a3,
        s.subrange((a0.len() + a1.len() + a2.len() + a3.len()) as int, (a0.len() + a1.len() + a2.len() + a3.len() + a4.len()) as int) == a4,
        s.subrange((a0.len() + a1.len() + a2.len() + a3.len() + a4.len()) as int, (a0.len() + a1.len() + a2.len() + a3.len() + a4.len() + a5.len()) as int) == a5,
        s.subrange((a0.len() + a1.len() + a2.len() + a3.len() + a4.len() + a5.len()) as int, (a0.len() + a1.len() + a2.len() + a3.len() + a4.len() + a5.len() + a6.len()) as int) == a6,
        s.subrange((a0.len() + a1.len() + a2.len() + a3.len() + a4.len() + a5.len() + a6.len()) as int, (a0.len() + a1.len() + a2.len() + a3.len() + a4.len() + a5.len() + a6.len() + a7.len()) as int) == a7,
        s.subrange((a0.len() + a1.len() + a2.len() + a3.len() + a4.len() + a5.len() + a6.len() + a7.len()) as int, (a0.len() + a1.len() + a2.len() + a3.len() + a4.len() + a5.len() + a6.len() + a7.len() + a8.len()) as int) == a8,
        s.subrange((a0.len() + a1.len() + a2.len() + a3.len() + a4.len() + a5.len() + a6.len() + a7.len() + a8.len()) as int, (a0.len() + a1.len() + a2.len() + a3.len() + a4.len() + a5.len() + a6.len() + a7.len() + a8.len() + a9.len()) as int) == a9,
        s.subrange((a0.len() + a1.len() + a2.len() + a3.len() + a4.len() + a5.len() + a6.len() + a7.len() + a8.len() + a9.len()) as int, (a0.len() + a1.len() + a2.len() + a3.len() + a4.len() + a5.len() + a6.len() + a7.len() + a8.len() + a9.len() + a10.len()) as int) == a10,
        s.subrange((a0.len() + a1.len() + a2.len() + a3.len() + a4.len() + a5.len() + a6.len() + a7.len() + a8.len() + a9.len() + a10.len()) as int, (a0.len() + a1.len() + a2.len() + a3.len() + a4.len() + a5.len() + a6.len() + a7.len() + a8.len() + a9.len() + a10.len() + a11.len()) as int) == a11,
        s.subrange((a0.len() + a1.len() + a2.len() + a3.len() + a4.len() + a5.len() + a6.len() + a7.len() + a8.len() + a9.len() + a10.len() + a11.len()) as int, (a0.len() + a1.len() + a2.len() + a3.len() + a4.len() + a5.len() + a6.len() + a7.len() + a8.len() + a9.len() + a10.len() + a11.len() + a12.len()) as int) == a12,
        s.subrange((a0.len() + a1.len() + a2.len() + a3.len() + a4.len() + a5.len() + a6.len() + a7.len() + a8.len() + a9.len() + a10.len() + a11.len() + a12.len()) as int, (a0.len() + a1.len() + a2.len() + a3.len() + a4.len() + a5.len() + a6.len() + a7.len() + a8.len() + a9.len() + a10.len() + a11.len() + a12.len() + a13.len()) as int) == a13,
        s.subrange((a0.len() + a1.len() + a2.len() + a3.len() + a4.len() + a5.len() + a6.len() + a7.len() + a8.len() + a9.len() + a10.len() + a11.len() + a12.len() + a13.len()) as int, (a0.len() + a1.len() + a2.len() + a3.len() + a4.len() + a5.len() + a6.len() + a7.len() + a8.len() + a9.len() + a10.len() + a11.len() + a12.len() + a13.len() + a14.len()) as int) == a14,
{
    let r14 = a14;
    let r13 = a13 + r14;
    let r12 = a12 + r13;
    let r11 = a11 + r12;
    let r10 = a10 + r11;
    let r9 = a9 + r10;
    let r8 = a8 + r9;
    let r7 = a7 + r8;
    let r6 = a6 + r7;
    let r5 = a5 + r6;
    let r4 = a4 + r5;
    let r3 = a3 + r4;
    let r2 = a2 + r3;
    let r1 = a1 + r2;
    assert(s.subrange(0, s.len() as int) =~= s);
    lemma_subrange_split(s, 0, a0, r1);
    lemma_subrange_split(s, (a0.len()) as int, a1, r2);
    lemma_subrange_split(s, (a0.len() + a1.len()) as int, a2, r3);
    lemma_subrange_split(s, (a0.len() + a1.len() + a2.len()) as int, a3, r4);
    lemma_subrange_split(s, (a0.len() + a1.len() + a2.len() + a3.len()) as int, a4, r5);
    lemma_subrange_split(s, (a0.len() + a1.len() + a2.len() + a3.len() + a4.len()) as int, a5, r6);
    lemma_subrange_split(s, (a0.len() + a1.len() + a2.len() + a3.len() + a4.len() + a5.len()) as int, a6, r7);
    lemma_subrange_split(s, (a0.len() + a1.len() + a2.len() + a3.len() + a4.len() + a5.len() + a6.len()) as int, a7, r8);
    lemma_subrange_split(s, (a0.len() + a1.len() + a2.len() + a3.len() + a4.len() + a5.len() + a6.len() + a7.len()) as int, a8, r9);
    lemma_subrange_split(s, (a0.len() + a1.len() + a2.len() + a3.len() + a4.len() + a5.len() + a6.len() + a7.len() + a8.len()) as int, a9, r10);
    lemma_subrange_split(s, (a0.len() + a1.len() + a2.len() + a3.len() + a4.len() + a5.len() + a6.len() + a7.len() + a8.len() + a9.len()) as int, a10, r11);
    lemma_subrange_split(s, (a0.len() + a1.len() + a2.len() + a3.len() + a4.len() + a5.len() + a6.len() + a7.len() + a8.len() + a9.len() + a10.len()) as int, a11, r12);
    lemma_subrange_split(s, (a0.len() + a1.len() + a2.len() + a3.len() + a4.len() + a5.len() + a6.len() + a7.len() + a8.len() + a9.len() + a10.len() + a11.len()) as int, a12, r13);
    lemma_subrange_split(s, (a0.len() + a1.len() + a2.len() + a3.len() + a4.len() + a5.len() + a6.len() + a7.len() + a8.len() + a9.len() + a10.len() + a11.len() + a12.len()) as int, a13, r14);
}

/// A left-nested concatenation chain equals the right-nested one.
#[verifier::rlimit(100)]
#[verifier::spinoff_prover]
pub proof fn lemma_reassoc_chain(a0: Seq<char>, a1: Seq<char>, a2: Seq<char>, a3: Seq<char>, a4: Seq<char>, a5: Seq<char>, a6: Seq<char>, a7: Seq<char>, a8: Seq<char>, a9: Seq<char>, a10: Seq<char>, a11: Seq<char>, a12: Seq<char>, a13: Seq<char>, a14: Seq<char>)
    ensures
        ((((((((((((((a0 + a1) + a2) + a3) + a4) + a5) + a6) + a7) + a8) + a9) + a10) + a11) + a12) + a13) + a14) == a0 + (a1 + (a2 + (a3 + (a4 + (a5 + (a6 + (a7 + (a8 + (a9 + (a10 + (a11 + (a12 + (a13 + (a14)))))))))))))),
{
    let r14 = a14;
    let r13 = a13 + r14;
    let r12 = a12 + r13;
    let r11 = a11 + r12;
    let r10 = a10 + r11;
    let r9 = a9 + r10;
    let r8 = a8 + r9;
    let r7 = a7 + r8;
    let r6 = a6 + r7;
    let r5 = a5 + r6;
    let r4 = a4 + r5;
    let r3 = a3 + r4;
    let r2 = a2 + r3;
    let r1 = a1 + r2;
    let l1 = a0 + a1;
    let l2 = l1 + a2;
    let l3 = l2 + a3;
    let l4 = l3 + a4;
    let l5 = l4 + a5;
    let l6 = l5 + a6;
    let l7 = l6 + a7;
    let l8 = l7 + a8;
    let l9 = l8 + a9;
    let l10 = l9 + a10;
    let l11 = l10 + a11;
    let l12 = l11 + a12;
    let l13 = l12 + a13;
    let l14 = l13 + a14;
    assert(l14 == l13 + r14);
    assert(l13 + r14 =~= l12 + r13);
    assert(l12 + r13 =~= l11 + r12);
    assert(l11 + r12 =~= l10 + r11);
    assert(l10 + r11 =~= l9 + r10);
    assert(l9 + r10 =~= l8 + r9);
    assert(l8 + r9 =~= l7 + r8);
    assert(l7 + r8 =~= l6 + r7);
    assert(l6 + r7 =~= l5 + r6);
    assert(l5 + r6 =~= l4 + r5);
    assert(l4 + r5 =~= l3 + r4);
    assert(l3 + r4 =~= l2 + r3);
    assert(l2 + r3 =~= l1 + r2);
    assert(l1 + r2 =~= a0 + r1);
}

/// The seven segments of a shorter concatenation chain each occupy their own
/// subrange.
#[verifier::rlimit(100)]
#[verifier::spinoff_prover]
pub proof fn lemma_subrange_chain7(s: Seq<char>, a0: Seq<char>, a1: Seq<char>, a2: Seq<char>, a3: Seq<char>, a4: Seq<char>, a5: Seq<char>, a6: Seq<char>)
    requires
        s == a0 + (a1 + (a2 + (a3 + (a4 + (a5 + (a6)))))),
    ensures
        s.subrange((0) as int, (0 + a0.len()) as int) == a0,
        s.subrange((a0.len()) as int, (a0.len() + a1.len()) as int) == a1,
        s.subrange((a0.len() + a1.len()) as int, (a0.len() + a1.len() + a2.len()) as int) == a2,
        s.subrange((a0.len() + a1.len() + a2.len()) as int, (a0.len() + a1.len() + a2.len() + a3.len()) as int) == a3,
        s.subrange((a0.len() + a1.len() + a2.len() + a3.len()) as int, (a0.len() + a1.len() + a2.len() + a3.len() + a4.len()) as int) == a4,
        s.subrange((a0.len() + a1.len() + a2.len() + a3.len() + a4.len()) as int, (a0.len() + a1.len() + a2.len() + a3.len() + a4.len() + a5.len()) as int) == a5,
        s.subrange((a0.len() + a1.len() + a2.len() + a3.len() + a4.len() + a5.len()) as int, (a0.len() + a1.len() + a2.len() + a3.len() + a4.len() + a5.len() + a6.len()) as int) == a6,
{
    let r6 = a6;
    let r5 = a5 + r6;
    let r4 = a4 + r5;
    let r3 = a3 + r4;
    let r2 = a2 + r3;
    let r1 = a1 + r2;
    assert(s.subrange(0, s.len() as int) =~= s);
    lemma_subrange_split(s, 0, a0, r1);
    lemma_subrange_split(s, (a0.len()) as int, a1, r2);
    lemma_subrange_split(s, (a0.len() + a1.len()) as int, a2, r3);
    lemma_subrange_split(s, (a0.len() + a1.len() + a2.len()) as int, a3, r4);
    lemma_subrange_split(s, (a0.len() + a1.len() + a2.len() + a3.len()) as int, a4, r5);
    lemma_subrange_split(s, (a0.len() + a1.len() + a2.len() + a3.len() + a4.len()) as int, a5, r6);
}

/// A shorter left-nested concatenation chain equals the right-nested one.
#[verifier::rlimit(100)]
#[verifier::spinoff_prover]
pub proof fn lemma_reassoc_chain7(a0: Seq<char>, a1: Seq<char>, a2: Seq<char>, a3: Seq<char>, a4: Seq<char>, a5: Seq<char>, a6: Seq<char>)
    ensures
        ((((((a0 + a1) + a2) + a3) + a4) + a5) + a6) == a0 + (a1 + (a2 + (a3 + (a4 + (a5 + (a6)))))),
{
    let r6 = a6;
    let r5 = a5 + r6;
    let r4 = a4 + r5;
    let r3 = a3 + r4;
    let r2 = a2 + r3;
    let r1 = a1 + r2;
    let l1 = a0 + a1;
    let l2 = l1 + a2;
    let l3 = l2 + a3;
    let l4 = l3 + a4;
    let l5 = l4 + a5;
    let l6 = l5 + a6;
    assert(l6 == l5 + r6);
    assert(l5 + r6 =~= l4 + r5);
    assert(l4 + r5 =~= l3 + r4);
    assert(l3 + r4 =~= l2 + r3);
    assert(l2 + r3 =~= l1 + r2);
    assert(l1 + r2 =~= a0 + r1);
}

} // verus!
