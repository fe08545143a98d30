//! Small verified text utilities shared by the protocol codec and parsers:
//! decimal rendering and parsing, prefix tests, trimming, and splitting.

use vstd::prelude::*;

verus! {

// ---------------------------------------------------------------------------
// Decimal digits
// ---------------------------------------------------------------------------

pub open spec fn is_dec_digit(c: char) -> bool {
    c == '0' || c == '1' || c == '2' || c == '3' || c == '4' || c == '5' || c == '6' || c == '7'
        || c == '8' || c == '9'
}

pub open spec fn digit_char(d: int) -> char {
    if d == 0 {
        '0'
    } else if d == 1 {
        '1'
    } else if d == 2 {
        '2'
    } else if d == 3 {
        '3'
    } else if d == 4 {
        '4'
    } else if d == 5 {
        '5'
    } else if d == 6 {
        '6'
    } else if d == 7 {
        '7'
    } else if d == 8 {
        '8'
    } else {
        '9'
    }
}

pub open spec fn digit_val(c: char) -> nat {
    if c == '0' {
        0
    } else if c == '1' {
        1
    } else if c == '2' {
        2
    } else if c == '3' {
        3
    } else if c == '4' {
        4
    } else if c == '5' {
        5
    } else if c == '6' {
        6
    } else if c == '7' {
        7
    } else if c == '8' {
        8
    } else {
        9
    }
}

/// Decimal rendering of a natural number, most significant digit first.
pub open spec fn dec_of(n: nat) -> Seq<char>
    decreases n,
{
    if n < 10 {
        seq![digit_char(n as int)]
    } else {
        dec_of(n / 10).push(digit_char((n % 10) as int))
    }
}

/// Value of a digit string, most significant digit first.
pub open spec fn dec_val(s: Seq<char>) -> nat
    decreases s.len(),
{
    if s.len() == 0 {
        0
    } else {
        dec_val(s.drop_last()) * 10 + digit_val(s.last())
    }
}

pub open spec fn all_dec_digits(s: Seq<char>) -> bool {
    forall|i: int| 0 <= i < s.len() ==> is_dec_digit(s[i])
}

fn digit_str(d: u64) -> (r: &'static str)
    requires
        d < 10,
    ensures
        r@ == seq![digit_char(d as int)],
{
    let r: &'static str = if d == 0 {
        "0"
    } else if d == 1 {
        "1"
    } else if d == 2 {
        "2"
    } else if d == 3 {
        "3"
    } else if d == 4 {
        "4"
    } else if d == 5 {
        "5"
    } else if d == 6 {
        "6"
    } else if d == 7 {
        "7"
    } else if d == 8 {
        "8"
    } else {
        "9"
    };
    proof {
        reveal_strlit("0");
        reveal_strlit("1");
        reveal_strlit("2");
        reveal_strlit("3");
        reveal_strlit("4");
        reveal_strlit("5");
        reveal_strlit("6");
        reveal_strlit("7");
        reveal_strlit("8");
        reveal_strlit("9");
        assert(r@ =~= seq![digit_char(d as int)]);
    }
    r
}

/// Appends the decimal rendering of `n` to `s`.
pub fn append_u64_dec(s: &mut String, n: u64)
    ensures
        final(s)@ == old(s)@ + dec_of(n as nat),
    decreases n,
{
    if n < 10 {
        s.append(digit_str(n));
        proof {
            assert(s@ =~= old(s)@ + dec_of(n as nat));
        }
    } else {
        append_u64_dec(s, n / 10);
        s.append(digit_str(n % 10));
        proof {
            assert(s@ =~= old(s)@ + dec_of(n as nat));
        }
    }
}

/// The decimal rendering of `n` as a fresh string.
pub fn u64_to_dec(n: u64) -> (r: String)
    ensures
        r@ == dec_of(n as nat),
{
    let mut s = String::new();
    append_u64_dec(&mut s, n);
    proof {
        assert(s@ =~= dec_of(n as nat));
    }
    s
}

/// Digit strings never contain a newline; the codec relies on this when it
/// proves that rendered numbers keep the line structure intact.
pub proof fn lemma_dec_of_no_newline(n: nat)
    ensures
        forall|i: int| 0 <= i < dec_of(n).len() ==> dec_of(n)[i] != '\n',
    decreases n,
{
    if n < 10 {
        assert(dec_of(n)[0] == digit_char(n as int));
    } else {
        lemma_dec_of_no_newline(n / 10);
        assert forall|i: int| 0 <= i < dec_of(n).len() implies dec_of(n)[i] != '\n' by {
            if i < dec_of(n).len() - 1 {
                assert(dec_of(n)[i] == dec_of(n / 10)[i]);
            } else {
                assert(dec_of(n)[i] == digit_char((n % 10) as int));
            }
        }
    }
}

fn char_dec_val(c: char) -> (r: Option<u64>)
    ensures
        r is Some <==> is_dec_digit(c),
        r is Some ==> r.unwrap() == digit_val(c),
{
    if c == '0' {
        Some(0)
    } else if c == '1' {
        Some(1)
    } else if c == '2' {
        Some(2)
    } else if c == '3' {
        Some(3)
    } else if c == '4' {
        Some(4)
    } else if c == '5' {
        Some(5)
    } else if c == '6' {
        Some(6)
    } else if c == '7' {
        Some(7)
    } else if c == '8' {
        Some(8)
    } else if c == '9' {
        Some(9)
    } else {
        None
    }
}

proof fn lemma_dec_val_step(s: Seq<char>, i: int)
    requires
        0 <= i < s.len(),
    ensures
        dec_val(s.subrange(0, i + 1)) == dec_val(s.subrange(0, i)) * 10 + digit_val(s[i]),
{
    let t = s.subrange(0, i + 1);
    assert(t.drop_last() =~= s.subrange(0, i));
    assert(t.last() == s[i]);
}

proof fn lemma_dec_val_monotone(s: Seq<char>, i: int, j: int)
    requires
        0 <= i <= j <= s.len(),
    ensures
        dec_val(s.subrange(0, i)) <= dec_val(s.subrange(0, j)),
    decreases j - i,
{
    if i < j {
        lemma_dec_val_monotone(s, i, j - 1);
        lemma_dec_val_step(s, j - 1);
        assert(dec_val(s.subrange(0, j - 1)) * 10 >= dec_val(s.subrange(0, j - 1))) by (nonlinear_arith);
    }
}

/// Parses a string of decimal digits into a `u64`. Fails on an empty string,
/// on any non-digit character, and on overflow; this matches how the control
/// protocol's counter fields are read, where anything else counts as absent.
pub fn parse_u64_dec(s: &str) -> (r: Option<u64>)
    ensures
        r is Some <==> (s@.len() > 0 && all_dec_digits(s@) && dec_val(s@) <= u64::MAX),
        r is Some ==> r.unwrap() == dec_val(s@),
{
    let len = s.unicode_len();
    if len == 0 {
        return None;
    }
    let mut acc: u64 = 0;
    let mut i: usize = 0;
    while i < len
        invariant
            0 <= i <= len,
            len == s@.len(),
            all_dec_digits(s@.subrange(0, i as int)),
            acc == dec_val(s@.subrange(0, i as int)),
        decreases len - i,
    {
        let c = s.get_char(i);
        match char_dec_val(c) {
            None => {
                assert(!is_dec_digit(s@[i as int]));
                return None;
            },
            Some(d) => {
                proof {
                    lemma_dec_val_step(s@, i as int);
                }
                let shifted = match acc.checked_mul(10) {
                    Some(v) => v,
                    None => {
                        proof {
                            lemma_dec_val_monotone(s@, i as int + 1, s@.len() as int);
                            assert(s@.subrange(0, s@.len() as int) =~= s@);
                        }
                        return None;
                    },
                };
                let next = match shifted.checked_add(d) {
                    Some(v) => v,
                    None => {
                        proof {
                            lemma_dec_val_monotone(s@, i as int + 1, s@.len() as int);
                            assert(s@.subrange(0, s@.len() as int) =~= s@);
                        }
                        return None;
                    },
                };
                acc = next;
                i += 1;
            },
        }
    }
    proof {
        assert(s@.subrange(0, len as int) =~= s@);
    }
    Some(acc)
}

/// Parses a decimal string as a `u16`, the shape of port numbers and
/// keepalive intervals.
pub fn parse_u16_dec(s: &str) -> (r: Option<u16>)
    ensures
        r is Some <==> (s@.len() > 0 && all_dec_digits(s@) && dec_val(s@) <= u16::MAX),
        r is Some ==> r.unwrap() == dec_val(s@),
{
    match parse_u64_dec(s) {
        None => None,
        Some(v) => {
            if v <= 65535 {
                Some(v as u16)
            } else {
                None
            }
        },
    }
}

// ---------------------------------------------------------------------------
// Prefix tests and equality
// ---------------------------------------------------------------------------

pub open spec fn has_prefix(s: Seq<char>, p: Seq<char>) -> bool {
    p.len() <= s.len() && s.subrange(0, p.len() as int) == p
}

pub fn str_has_prefix(s: &str, p: &str) -> (r: bool)
    ensures
        r == has_prefix(s@, p@),
{
    let sl = s.unicode_len();
    let pl = p.unicode_len();
    if pl > sl {
        return false;
    }
    let mut i: usize = 0;
    while i < pl
        invariant
            0 <= i <= pl,
            pl <= sl,
            pl == p@.len(),
            sl == s@.len(),
            forall|j: int| 0 <= j < i ==> s@[j] == p@[j],
        decreases pl - i,
    {
        if s.get_char(i) != p.get_char(i) {
            proof {
                assert(s@.subrange(0, p@.len() as int)[i as int] == s@[i as int]);
            }
            return false;
        }
        i += 1;
    }
    proof {
        assert(s@.subrange(0, p@.len() as int) =~= p@);
    }
    true
}

pub fn str_eq(a: &str, b: &str) -> (r: bool)
    ensures
        r == (a@ == b@),
{
    let al = a.unicode_len();
    let bl = b.unicode_len();
    if al != bl {
        return false;
    }
    let r = str_has_prefix(a, b);
    proof {
        assert(a@.subrange(0, b@.len() as int) =~= a@);
    }
    r
}

// ---------------------------------------------------------------------------
// Character search
// ---------------------------------------------------------------------------

pub open spec fn seq_contains_char(s: Seq<char>, c: char) -> bool {
    exists|i: int| 0 <= i < s.len() && s[i] == c
}

/// The index of the first occurrence of `c` at or after `from`, or the
/// length of `s` if there is none.
pub fn find_char(s: &str, from: usize, c: char) -> (r: usize)
    requires
        from <= s@.len(),
    ensures
        from <= r <= s@.len(),
        forall|j: int| from <= j < r ==> s@[j] != c,
        r < s@.len() ==> s@[r as int] == c,
{
    let len = s.unicode_len();
    let mut i: usize = from;
    while i < len
        invariant
            from <= i <= len,
            len == s@.len(),
            forall|j: int| from <= j < i ==> s@[j] != c,
        decreases len - i,
    {
        if s.get_char(i) == c {
            return i;
        }
        i += 1;
    }
    i
}

pub fn str_contains_char(s: &str, c: char) -> (r: bool)
    ensures
        r == seq_contains_char(s@, c),
{
    let r = find_char(s, 0, c);
    r < s.unicode_len()
}

// ---------------------------------------------------------------------------
// Trimming
// ---------------------------------------------------------------------------

/// The whitespace the protocol parsers strip: the four ASCII whitespace
/// characters that occur in line-oriented engine output.
pub open spec fn is_ascii_ws(c: char) -> bool {
    c == ' ' || c == '\t' || c == '\n' || c == '\r'
}

pub open spec fn trim_start_spec(s: Seq<char>) -> Seq<char>
    decreases s.len(),
{
    if s.len() > 0 && is_ascii_ws(s[0]) {
        trim_start_spec(s.subrange(1, s.len() as int))
    } else {
        s
    }
}

pub open spec fn trim_end_spec(s: Seq<char>) -> Seq<char>
    decreases s.len(),
{
    if s.len() > 0 && is_ascii_ws(s.last()) {
        trim_end_spec(s.drop_last())
    } else {
        s
    }
}

pub open spec fn trim_spec(s: Seq<char>) -> Seq<char> {
    trim_end_spec(trim_start_spec(s))
}

fn is_ws_char(c: char) -> (r: bool)
    ensures
        r == is_ascii_ws(c),
{
    c == ' ' || c == '\t' || c == '\n' || c == '\r'
}

proof fn lemma_trim_start_at(s: Seq<char>, i: int)
    requires
        0 <= i <= s.len(),
        forall|j: int| 0 <= j < i ==> is_ascii_ws(s[j]),
        i < s.len() ==> !is_ascii_ws(s[i]),
    ensures
        trim_start_spec(s) == s.subrange(i, s.len() as int),
    decreases i,
{
    if i == 0 {
        assert(s.subrange(0, s.len() as int) =~= s);
    } else {
        let t = s.subrange(1, s.len() as int);
        lemma_trim_start_at(t, i - 1);
        assert(t.subrange(i - 1, t.len() as int) =~= s.subrange(i, s.len() as int));
    }
}

proof fn lemma_trim_end_at(s: Seq<char>, j: int)
    requires
        0 <= j <= s.len(),
        forall|k: int| j <= k < s.len() ==> is_ascii_ws(s[k]),
        j > 0 ==> !is_ascii_ws(s[j - 1]),
    ensures
        trim_end_spec(s) == s.subrange(0, j),
    decreases s.len() - j,
{
    if j == s.len() {
        assert(s.subrange(0, s.len() as int) =~= s);
    } else {
        let t = s.drop_last();
        lemma_trim_end_at(t, j);
        assert(t.subrange(0, j) =~= s.subrange(0, j));
    }
}

/// Strips leading and trailing ASCII whitespace.
pub fn trim_str(s: &str) -> (r: String)
    ensures
        r@ == trim_spec(s@),
{
    let len = s.unicode_len();
    let mut i: usize = 0;
    while i < len && is_ws_char(s.get_char(i))
        invariant
            0 <= i <= len,
            len == s@.len(),
            forall|j: int| 0 <= j < i ==> is_ascii_ws(s@[j]),
        decreases len - i,
    {
        i += 1;
    }
    proof {
        lemma_trim_start_at(s@, i as int);
    }
    if i == len {
        proof {
            assert(s@.subrange(len as int, len as int) =~= Seq::<char>::empty());
        }
        return String::new();
    }
    let mut j: usize = len;
    while j > i && is_ws_char(s.get_char(j - 1))
        invariant
            i <= j <= len,
            len == s@.len(),
            i < len,
            !is_ascii_ws(s@[i as int]),
            forall|k: int| j <= k < len ==> is_ascii_ws(s@[k]),
        decreases j,
    {
        j -= 1;
    }
    let sub = s.substring_char(i, j);
    proof {
        let t = s@.subrange(i as int, len as int);
        lemma_trim_end_at(t, j - i);
        assert(t.subrange(0, j - i) =~= s@.subrange(i as int, j as int));
    }
    let r = sub.to_owned();
    r
}

// ---------------------------------------------------------------------------
// Splitting on a separator character
// ---------------------------------------------------------------------------

/// Splitting a string on a separator. The result always has at least one
/// element; a separator at the end yields a trailing empty segment.
pub open spec fn split_spec(s: Seq<char>, sep: char) -> Seq<Seq<char>>
    decreases s.len(),
{
    if s.len() == 0 {
        seq![Seq::<char>::empty()]
    } else if s[0] == sep {
        seq![Seq::<char>::empty()] + split_spec(s.subrange(1, s.len() as int), sep)
    } else {
        let rest = split_spec(s.subrange(1, s.len() as int), sep);
        seq![seq![s[0]] + rest[0]] + rest.subrange(1, rest.len() as int)
    }
}

pub proof fn lemma_split_nonempty(s: Seq<char>, sep: char)
    ensures
        split_spec(s, sep).len() >= 1,
    decreases s.len(),
{
    if s.len() > 0 {
        lemma_split_nonempty(s.subrange(1, s.len() as int), sep);
    }
}

/// A separator-free string splits into itself alone.
pub proof fn lemma_split_no_sep(s: Seq<char>, sep: char)
    requires
        !seq_contains_char(s, sep),
    ensures
        split_spec(s, sep) == seq![s],
    decreases s.len(),
{
    if s.len() == 0 {
        assert(split_spec(s, sep) =~~= seq![s]);
    } else {
        let t = s.subrange(1, s.len() as int);
        assert(s[0] != sep);
        assert(forall|i: int| 0 <= i < t.len() ==> t[i] == s[i + 1]);
        lemma_split_no_sep(t, sep);
        lemma_split_nonempty(t, sep);
        assert(seq![s[0]] + t =~= s);
        assert(split_spec(s, sep) =~~= seq![s]);
    }
}

/// Splitting at the first separator: the head segment is everything before
/// it, and the rest splits independently.
pub proof fn lemma_split_at_first(s: Seq<char>, sep: char, k: int)
    requires
        0 <= k < s.len(),
        s[k] == sep,
        forall|j: int| 0 <= j < k ==> s[j] != sep,
    ensures
        split_spec(s, sep) == seq![s.subrange(0, k)] + split_spec(
            s.subrange(k + 1, s.len() as int),
            sep,
        ),
    decreases k,
{
    if k == 0 {
        assert(s.subrange(0, 0) =~= Seq::<char>::empty());
        assert(split_spec(s, sep) =~~= seq![s.subrange(0, 0)] + split_spec(
            s.subrange(1, s.len() as int),
            sep,
        ));
    } else {
        let t = s.subrange(1, s.len() as int);
        lemma_split_at_first(t, sep, k - 1);
        lemma_split_nonempty(t.subrange(k, t.len() as int), sep);
        assert(t.subrange(k, t.len() as int) =~= s.subrange(k + 1, s.len() as int));
        let rest = split_spec(t, sep);
        assert(rest[0] == t.subrange(0, k - 1));
        assert(seq![s[0]] + t.subrange(0, k - 1) =~= s.subrange(0, k));
        assert(split_spec(s, sep) =~~= seq![s.subrange(0, k)] + split_spec(
            s.subrange(k + 1, s.len() as int),
            sep,
        ));
    }
}

/// Splits `s` on every occurrence of `sep`.
pub fn split_char(s: &str, sep: char) -> (r: Vec<String>)
    ensures
        r@.len() == split_spec(s@, sep).len(),
        forall|i: int| 0 <= i < r@.len() ==> r@[i]@ == split_spec(s@, sep)[i],
{
    let len = s.unicode_len();
    let mut res: Vec<String> = Vec::new();
    let mut pos: usize = 0;
    let ghost full = split_spec(s@, sep);
    proof {
        lemma_split_nonempty(s@, sep);
        assert(s@.subrange(0, len as int) =~= s@);
    }
    loop
        invariant
            0 <= pos <= len,
            len == s@.len(),
            full == split_spec(s@, sep),
            full.len() == res@.len() + split_spec(
                s@.subrange(pos as int, len as int),
                sep,
            ).len(),
            forall|i: int| 0 <= i < res@.len() ==> res@[i]@ == full[i],
            forall|i: int|
                0 <= i < split_spec(s@.subrange(pos as int, len as int), sep).len() ==> split_spec(
                    s@.subrange(pos as int, len as int),
                    sep,
                )[i] == full[res@.len() + i],
        decreases len - pos,
    {
        let next = find_char(s, pos, sep);
        let seg = s.substring_char(pos, next).to_owned();
        let ghost tail = s@.subrange(pos as int, len as int);
        let ghost n0 = res@.len() as int;
        if next == len {
            proof {
                assert(forall|j: int| 0 <= j < tail.len() ==> tail[j] == s@[pos + j]);
                assert(!seq_contains_char(tail, sep));
                lemma_split_no_sep(tail, sep);
                assert(split_spec(tail, sep)[0] == tail);
                assert(seg@ == tail);
                assert(full[n0] == tail);
            }
            res.push(seg);
            proof {
                assert(res@.len() == full.len());
                assert(forall|i: int| 0 <= i < n0 ==> res@[i]@ == full[i]);
                assert(res@[n0]@ == full[n0]);
            }
            return res;
        } else {
            proof {
                let k = next as int - pos as int;
                assert(forall|j: int| 0 <= j < tail.len() ==> tail[j] == s@[pos + j]);
                assert(tail[k] == sep);
                lemma_split_at_first(tail, sep, k);
                let tail2 = s@.subrange(next as int + 1, len as int);
                assert(tail.subrange(0, k) =~= s@.subrange(pos as int, next as int));
                assert(tail.subrange(k + 1, tail.len() as int) =~= tail2);
                assert(split_spec(tail, sep) == seq![tail.subrange(0, k)] + split_spec(tail2, sep));
                assert(split_spec(tail, sep)[0] == tail.subrange(0, k));
                assert(seg@ == full[n0]);
                assert(forall|i: int|
                    0 <= i < split_spec(tail2, sep).len() ==> split_spec(tail2, sep)[i]
                        == split_spec(tail, sep)[1 + i]);
            }
            res.push(seg);
            pos = next + 1;
            proof {
                assert(forall|i: int| 0 <= i < n0 ==> res@[i]@ == full[i]);
                assert(res@[n0]@ == full[n0]);
            }
        }
    }
}

// ---------------------------------------------------------------------------
// Substring search
// ---------------------------------------------------------------------------

pub open spec fn contains_sub(s: Seq<char>, p: Seq<char>) -> bool {
    exists|i: int|
        0 <= i && i + p.len() <= s.len() && #[trigger] s.subrange(i, i + p.len()) == p
}

fn matches_at(s: &str, p: &str, at: usize) -> (r: bool)
    requires
        at + p@.len() <= s@.len(),
    ensures
        r == (s@.subrange(at as int, at as int + p@.len() as int) == p@),
{
    let sl = s.unicode_len();
    let pl = p.unicode_len();
    let mut k: usize = 0;
    while k < pl
        invariant
            0 <= k <= pl,
            pl == p@.len(),
            sl == s@.len(),
            at + pl <= sl,
            forall|j: int| 0 <= j < k ==> s@[at + j] == p@[j],
        decreases pl - k,
    {
        if s.get_char(at + k) != p.get_char(k) {
            proof {
                assert(s@.subrange(at as int, at as int + p@.len() as int)[k as int] == s@[at
                    + k as int]);
            }
            return false;
        }
        k += 1;
    }
    proof {
        assert(s@.subrange(at as int, at as int + p@.len() as int) =~= p@);
    }
    true
}

/// Whether `p` occurs anywhere in `s`.
pub fn str_contains_sub(s: &str, p: &str) -> (r: bool)
    ensures
        r == contains_sub(s@, p@),
{
    let sl = s.unicode_len();
    let pl = p.unicode_len();
    if pl > sl {
        return false;
    }
    if pl == 0 {
        proof {
            assert(s@.subrange(0, 0 + p@.len() as int) =~= p@);
        }
        return true;
    }
    let mut i: usize = 0;
    while i <= sl - pl
        invariant
            0 <= i,
            i <= sl - pl + 1,
            sl == s@.len(),
            pl == p@.len(),
            1 <= pl <= sl,
            forall|j: int|
                0 <= j < i ==> #[trigger] s@.subrange(j, j + p@.len() as int) != p@,
        decreases sl - i,
    {
        if matches_at(s, p, i) {
            return true;
        }
        i += 1;
    }
    false
}

// ---------------------------------------------------------------------------
// Lexicographic order
// ---------------------------------------------------------------------------

/// Lexicographic order on character sequences by code point. On the ASCII
/// identifiers this crate sorts it coincides with the byte order of the
/// encoded strings.
pub open spec fn lex_le(a: Seq<char>, b: Seq<char>) -> bool
    decreases a.len(),
{
    if a.len() == 0 {
        true
    } else if b.len() == 0 {
        false
    } else if a[0] as u32 != b[0] as u32 {
        (a[0] as u32) < (b[0] as u32)
    } else {
        lex_le(a.subrange(1, a.len() as int), b.subrange(1, b.len() as int))
    }
}

/// The order is total.
pub proof fn lemma_lex_total(a: Seq<char>, b: Seq<char>)
    ensures
        lex_le(a, b) || lex_le(b, a),
    decreases a.len(),
{
    if a.len() > 0 && b.len() > 0 && a[0] as u32 == b[0] as u32 {
        lemma_lex_total(a.subrange(1, a.len() as int), b.subrange(1, b.len() as int));
    }
}

/// The order is transitive.
pub proof fn lemma_lex_trans(a: Seq<char>, b: Seq<char>, c: Seq<char>)
    requires
        lex_le(a, b),
        lex_le(b, c),
    ensures
        lex_le(a, c),
    decreases a.len(),
{
    if a.len() > 0 {
        if a[0] as u32 == b[0] as u32 && b[0] as u32 == c[0] as u32 {
            lemma_lex_trans(
                a.subrange(1, a.len() as int),
                b.subrange(1, b.len() as int),
                c.subrange(1, c.len() as int),
            );
        }
    }
}

proof fn lemma_lex_skip(a: Seq<char>, b: Seq<char>, i: int)
    requires
        0 <= i <= a.len(),
        i <= b.len(),
        forall|j: int| 0 <= j < i ==> a[j] == b[j],
    ensures
        lex_le(a, b) == lex_le(a.subrange(i, a.len() as int), b.subrange(i, b.len() as int)),
    decreases i,
{
    if i == 0 {
        assert(a.subrange(0, a.len() as int) =~= a);
        assert(b.subrange(0, b.len() as int) =~= b);
    } else {
        let ta = a.subrange(1, a.len() as int);
        let tb = b.subrange(1, b.len() as int);
        assert(forall|j: int| 0 <= j < i - 1 ==> ta[j] == tb[j]);
        lemma_lex_skip(ta, tb, i - 1);
        assert(ta.subrange(i - 1, ta.len() as int) =~= a.subrange(i, a.len() as int));
        assert(tb.subrange(i - 1, tb.len() as int) =~= b.subrange(i, b.len() as int));
    }
}

/// Compares two strings in the lexicographic order.
#[verifier::loop_isolation(false)]
pub fn str_lex_le(a: &str, b: &str) -> (r: bool)
    ensures
        r == lex_le(a@, b@),
{
    let al = a.unicode_len();
    let bl = b.unicode_len();
    let mut i: usize = 0;
    while i < al && i < bl
        invariant
            0 <= i <= al,
            i <= bl,
            forall|j: int| 0 <= j < i ==> a@[j] == b@[j],
        decreases al - i,
    {
        let ca = a.get_char(i);
        let cb = b.get_char(i);
        if (ca as u32) != (cb as u32) {
            proof {
                lemma_lex_skip(a@, b@, i as int);
            }
            return (ca as u32) < (cb as u32);
        }
        proof {
            assert(a@[i as int] == b@[i as int]);
        }
        i += 1;
    }
    proof {
        lemma_lex_skip(a@, b@, i as int);
        if i == al {
            assert(a@.subrange(i as int, al as int).len() == 0);
        } else {
            assert(b@.subrange(i as int, bl as int).len() == 0);
            assert(a@.subrange(i as int, al as int).len() > 0);
        }
    }
    al <= bl
}

} // verus!
