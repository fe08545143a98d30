//! Parsing of the engine's line-oriented responses: the `get` query's
//! per-peer counters and handshake stamps, the `errno=` verdict of a command
//! response, and the tab-separated dump format of the vendor tool. Per-peer
//! counters are aggregated into interface totals with saturating sums; the
//! freshest positive handshake stamp wins.

use vstd::prelude::*;

use crate::text::all_dec_digits;
use crate::text::contains_sub;
use crate::text::dec_val;
use crate::text::has_prefix;
use crate::text::parse_u64_dec;
use crate::text::split_char;
use crate::text::split_spec;
use crate::text::str_contains_sub;
use crate::text::str_has_prefix;
use crate::text::trim_spec;
use crate::text::trim_str;

verus! {

pub open spec fn lines_of(s: Seq<char>) -> Seq<Seq<char>> {
    split_spec(s, '\n')
}

pub open spec fn sat_add(a: nat, b: nat) -> nat {
    if a + b > u64::MAX {
        u64::MAX as nat
    } else {
        a + b
    }
}

/// What a line contributes to a counter keyed `key`: its decimal value when
/// the trimmed line starts with the key and the rest parses, zero otherwise.
pub open spec fn counter_contrib(l: Seq<char>, key: Seq<char>) -> nat {
    let t = trim_spec(l);
    if has_prefix(t, key) {
        let v = t.subrange(key.len() as int, t.len() as int);
        if v.len() > 0 && all_dec_digits(v) && dec_val(v) <= u64::MAX {
            dec_val(v)
        } else {
            0
        }
    } else {
        0
    }
}

/// The saturating sum of a counter over all lines.
pub open spec fn counter_total(lines: Seq<Seq<char>>, key: Seq<char>) -> nat
    decreases lines.len(),
{
    if lines.len() == 0 {
        0
    } else {
        sat_add(counter_total(lines.drop_last(), key), counter_contrib(lines.last(), key))
    }
}

/// A positive handshake stamp on a line, when present and in range.
pub open spec fn handshake_contrib(l: Seq<char>) -> Option<int> {
    let t = trim_spec(l);
    if has_prefix(t, "last_handshake_time_sec="@) {
        let v = t.subrange("last_handshake_time_sec="@.len() as int, t.len() as int);
        if v.len() > 0 && all_dec_digits(v) && dec_val(v) <= i64::MAX && dec_val(v) > 0 {
            Some(dec_val(v) as int)
        } else {
            None
        }
    } else {
        None
    }
}

pub open spec fn opt_max(a: Option<int>, b: Option<int>) -> Option<int> {
    match (a, b) {
        (Option::None, x) => x,
        (x, Option::None) => x,
        (Option::Some(x), Option::Some(y)) => Option::Some(
            if x >= y {
                x
            } else {
                y
            },
        ),
    }
}

/// The freshest positive handshake stamp over all lines.
pub open spec fn handshake_max(lines: Seq<Seq<char>>) -> Option<int>
    decreases lines.len(),
{
    if lines.len() == 0 {
        Option::None
    } else {
        opt_max(handshake_max(lines.drop_last()), handshake_contrib(lines.last()))
    }
}

// ---------------------------------------------------------------------------
// Exec helpers
// ---------------------------------------------------------------------------

fn line_counter_value(line: &str, key: &str) -> (r: u64)
    ensures
        r == counter_contrib(line@, key@),
{
    let t = trim_str(line);
    if str_has_prefix(t.as_str(), key) {
        let tl = t.as_str().unicode_len();
        let kl = key.unicode_len();
        let v = t.as_str().substring_char(kl, tl);
        match parse_u64_dec(v) {
            Some(x) => x,
            None => 0,
        }
    } else {
        0
    }
}

fn line_handshake_value(line: &str) -> (r: Option<i64>)
    ensures
        r is Some <==> handshake_contrib(line@) is Some,
        r is Some ==> r.unwrap() == handshake_contrib(line@).unwrap(),
{
    let t = trim_str(line);
    let key = "last_handshake_time_sec=";
    if str_has_prefix(t.as_str(), key) {
        let tl = t.as_str().unicode_len();
        let kl = key.unicode_len();
        let v = t.as_str().substring_char(kl, tl);
        match parse_u64_dec(v) {
            Some(x) => {
                if x > 0 && x <= 9223372036854775807u64 {
                    Some(x as i64)
                } else {
                    None
                }
            },
            None => None,
        }
    } else {
        None
    }
}

fn sat_add_u64(a: u64, b: u64) -> (r: u64)
    ensures
        r == sat_add(a as nat, b as nat),
{
    match a.checked_add(b) {
        Some(v) => v,
        None => u64::MAX,
    }
}

fn opt_max_i64(a: Option<i64>, b: Option<i64>) -> (r: Option<i64>)
    ensures
        r is Some <==> opt_max(
            match a {
                Some(x) => Option::Some(x as int),
                None => Option::None,
            },
            match b {
                Some(x) => Option::Some(x as int),
                None => Option::None,
            },
        ) is Some,
        r is Some ==> r.unwrap() == opt_max(
            match a {
                Some(x) => Option::Some(x as int),
                None => Option::None,
            },
            match b {
                Some(x) => Option::Some(x as int),
                None => Option::None,
            },
        ).unwrap(),
{
    match (a, b) {
        (None, x) => x,
        (Some(x), None) => Some(x),
        (Some(x), Some(y)) => Some(
            if x >= y {
                x
            } else {
                y
            },
        ),
    }
}

proof fn lemma_counter_total_step(lines: Seq<Seq<char>>, i: int, key: Seq<char>)
    requires
        0 <= i < lines.len(),
    ensures
        counter_total(lines.subrange(0, i + 1), key) == sat_add(
            counter_total(lines.subrange(0, i), key),
            counter_contrib(lines[i], key),
        ),
{
    let t = lines.subrange(0, i + 1);
    assert(t.drop_last() =~= lines.subrange(0, i));
    assert(t.last() == lines[i]);
}

proof fn lemma_handshake_max_step(lines: Seq<Seq<char>>, i: int)
    requires
        0 <= i < lines.len(),
    ensures
        handshake_max(lines.subrange(0, i + 1)) == opt_max(
            handshake_max(lines.subrange(0, i)),
            handshake_contrib(lines[i]),
        ),
{
    let t = lines.subrange(0, i + 1);
    assert(t.drop_last() =~= lines.subrange(0, i));
    assert(t.last() == lines[i]);
}

// ---------------------------------------------------------------------------
// The `get` response
// ---------------------------------------------------------------------------

/// Parses a `get` response into interface totals: transmitted bytes,
/// received bytes, and the freshest positive handshake stamp, if any.
#[verifier::loop_isolation(false)]
pub fn parse_interface_status(status: &str) -> (r: (u64, u64, Option<i64>))
    ensures
        r.0 == counter_total(lines_of(status@), "tx_bytes="@),
        r.1 == counter_total(lines_of(status@), "rx_bytes="@),
        r.2 is Some <==> handshake_max(lines_of(status@)) is Some,
        r.2 is Some ==> r.2.unwrap() == handshake_max(lines_of(status@)).unwrap(),
{
    let lines = split_char(status, '\n');
    let ghost lv = lines_of(status@);
    let mut tx: u64 = 0;
    let mut rx: u64 = 0;
    let mut hs: Option<i64> = None;
    let n = lines.len();
    let mut i: usize = 0;
    proof {
        assert(lv.subrange(0, 0) =~= Seq::<Seq<char>>::empty());
    }
    while i < n
        invariant
            0 <= i <= n,
            tx == counter_total(lv.subrange(0, i as int), "tx_bytes="@),
            rx == counter_total(lv.subrange(0, i as int), "rx_bytes="@),
            hs is Some <==> handshake_max(lv.subrange(0, i as int)) is Some,
            hs is Some ==> hs.unwrap() == handshake_max(lv.subrange(0, i as int)).unwrap(),
        decreases n - i,
    {
        proof {
            lemma_counter_total_step(lv, i as int, "tx_bytes="@);
            lemma_counter_total_step(lv, i as int, "rx_bytes="@);
            lemma_handshake_max_step(lv, i as int);
        }
        let ct = line_counter_value(lines[i].as_str(), "tx_bytes=");
        tx = sat_add_u64(tx, ct);
        let cr = line_counter_value(lines[i].as_str(), "rx_bytes=");
        rx = sat_add_u64(rx, cr);
        let ch = line_handshake_value(lines[i].as_str());
        hs = opt_max_i64(hs, ch);
        i += 1;
    }
    proof {
        assert(lv.subrange(0, n as int) =~= lv);
    }
    (tx, rx, hs)
}

// ---------------------------------------------------------------------------
// The command verdict
// ---------------------------------------------------------------------------

/// The value text of the first `errno=` line, if any.
pub open spec fn first_errno_from(lines: Seq<Seq<char>>, i: int) -> Option<Seq<char>>
    decreases lines.len() - i,
{
    if i < 0 || i >= lines.len() {
        Option::None
    } else {
        let t = trim_spec(lines[i]);
        if has_prefix(t, "errno="@) {
            Option::Some(t.subrange("errno="@.len() as int, t.len() as int))
        } else {
            first_errno_from(lines, i + 1)
        }
    }
}

/// Whether a response signals command failure: the first `errno=` line
/// decides; a value of zero, or no `errno=` line at all, is success.
pub open spec fn response_failure_spec(s: Seq<char>) -> bool {
    match first_errno_from(lines_of(s), 0) {
        Option::None => false,
        Option::Some(v) => !(v.len() > 0 && all_dec_digits(v) && dec_val(v) == 0),
    }
}

proof fn lemma_first_errno_skip(lines: Seq<Seq<char>>, j: int, k: int)
    requires
        0 <= j <= k <= lines.len(),
        forall|m: int| j <= m < k ==> !has_prefix(trim_spec(lines[m]), "errno="@),
    ensures
        first_errno_from(lines, j) == first_errno_from(lines, k),
    decreases k - j,
{
    if j < k {
        lemma_first_errno_skip(lines, j + 1, k);
    }
}

#[verifier::loop_isolation(false)]
pub fn response_indicates_failure(resp: &str) -> (r: bool)
    ensures
        r == response_failure_spec(resp@),
{
    let lines = split_char(resp, '\n');
    let ghost lv = lines_of(resp@);
    let n = lines.len();
    let mut i: usize = 0;
    while i < n
        invariant
            0 <= i <= n,
            forall|m: int| 0 <= m < i ==> !has_prefix(trim_spec(lv[m]), "errno="@),
        decreases n - i,
    {
        let t = trim_str(lines[i].as_str());
        if str_has_prefix(t.as_str(), "errno=") {
            let tl = t.as_str().unicode_len();
            let kl = "errno=".unicode_len();
            let v = t.as_str().substring_char(kl, tl);
            let ok = match parse_u64_dec(v) {
                Some(x) => x == 0,
                None => false,
            };
            proof {
                lemma_first_errno_skip(lv, 0, i as int);
            }
            return !ok;
        }
        i += 1;
    }
    proof {
        lemma_first_errno_skip(lv, 0, n as int);
    }
    false
}

/// Whether enough of a response has arrived to stop reading: a blank-line
/// terminator or an `errno=` field has appeared. Reads are bounded by a
/// timeout on the caller's side; this is the in-protocol stop condition.
pub open spec fn response_complete_spec(s: Seq<char>) -> bool {
    contains_sub(s, "\n\n"@) || contains_sub(s, "errno="@)
}

pub fn response_is_complete(resp: &str) -> (r: bool)
    ensures
        r == response_complete_spec(resp@),
{
    if str_contains_sub(resp, "\n\n") {
        true
    } else {
        str_contains_sub(resp, "errno=")
    }
}

// ---------------------------------------------------------------------------
// The vendor tool's dump format
// ---------------------------------------------------------------------------

/// A line with any trailing carriage return removed, as the dump's lines
/// carry them on that platform.
pub open spec fn strip_cr(l: Seq<char>) -> Seq<char> {
    if l.len() > 0 && l.last() == '\r' {
        l.drop_last()
    } else {
        l
    }
}

/// The tab-separated columns of a dump line.
pub open spec fn cols_of(l: Seq<char>) -> Seq<Seq<char>> {
    split_spec(strip_cr(l), '\t')
}

/// A peer line has at least seven columns; anything shorter is a header or
/// noise and contributes nothing.
pub open spec fn dump_counter_contrib(l: Seq<char>, j: int) -> nat {
    let cols = cols_of(l);
    if cols.len() >= 7 {
        let v = cols[j];
        if v.len() > 0 && all_dec_digits(v) && dec_val(v) <= u64::MAX {
            dec_val(v)
        } else {
            0
        }
    } else {
        0
    }
}

pub open spec fn dump_counter_total(lines: Seq<Seq<char>>, j: int) -> nat
    decreases lines.len(),
{
    if lines.len() == 0 {
        0
    } else {
        sat_add(dump_counter_total(lines.drop_last(), j), dump_counter_contrib(lines.last(), j))
    }
}

pub open spec fn dump_handshake_contrib(l: Seq<char>) -> Option<int> {
    let cols = cols_of(l);
    if cols.len() >= 7 {
        let v = cols[4];
        if v.len() > 0 && all_dec_digits(v) && dec_val(v) <= i64::MAX && dec_val(v) > 0 {
            Option::Some(dec_val(v) as int)
        } else {
            Option::None
        }
    } else {
        Option::None
    }
}

pub open spec fn dump_handshake_max(lines: Seq<Seq<char>>) -> Option<int>
    decreases lines.len(),
{
    if lines.len() == 0 {
        Option::None
    } else {
        opt_max(dump_handshake_max(lines.drop_last()), dump_handshake_contrib(lines.last()))
    }
}

/// A handshake stamp turned into an age: how many seconds before `now` it
/// lies; a stamp in the future is discarded.
pub open spec fn age_of(hs: Option<int>, now: int) -> Option<int> {
    match hs {
        Option::None => Option::None,
        Option::Some(ts) => if now >= ts {
            Option::Some(now - ts)
        } else {
            Option::None
        },
    }
}

proof fn lemma_dump_handshake_positive(lines: Seq<Seq<char>>)
    ensures
        dump_handshake_max(lines) is Some ==> dump_handshake_max(lines).unwrap() > 0,
    decreases lines.len(),
{
    if lines.len() > 0 {
        lemma_dump_handshake_positive(lines.drop_last());
    }
}

fn dump_cols(line: &str) -> (cols: Vec<String>)
    ensures
        cols@.len() == cols_of(line@).len(),
        forall|i: int| 0 <= i < cols@.len() ==> cols@[i]@ == cols_of(line@)[i],
{
    let len = line.unicode_len();
    let stripped: String = if len > 0 && line.get_char(len - 1) == '\r' {
        let s = line.substring_char(0, len - 1).to_owned();
        proof {
            assert(line@.subrange(0, len - 1) =~= line@.drop_last());
        }
        s
    } else {
        line.to_owned()
    };
    split_char(stripped.as_str(), '\t')
}

fn dump_counter_value(line: &str, j: usize) -> (r: u64)
    requires
        j < 7,
    ensures
        r == dump_counter_contrib(line@, j as int),
{
    let cols = dump_cols(line);
    if cols.len() >= 7 {
        match parse_u64_dec(cols[j].as_str()) {
            Some(x) => x,
            None => 0,
        }
    } else {
        0
    }
}

fn dump_handshake_value(line: &str) -> (r: Option<i64>)
    ensures
        r is Some <==> dump_handshake_contrib(line@) is Some,
        r is Some ==> r.unwrap() == dump_handshake_contrib(line@).unwrap(),
{
    let cols = dump_cols(line);
    if cols.len() >= 7 {
        match parse_u64_dec(cols[4].as_str()) {
            Some(x) => {
                if x > 0 && x <= 9223372036854775807u64 {
                    Some(x as i64)
                } else {
                    None
                }
            },
            None => None,
        }
    } else {
        None
    }
}

proof fn lemma_dump_counter_step(lines: Seq<Seq<char>>, i: int, j: int)
    requires
        0 <= i < lines.len(),
    ensures
        dump_counter_total(lines.subrange(0, i + 1), j) == sat_add(
            dump_counter_total(lines.subrange(0, i), j),
            dump_counter_contrib(lines[i], j),
        ),
{
    let t = lines.subrange(0, i + 1);
    assert(t.drop_last() =~= lines.subrange(0, i));
    assert(t.last() == lines[i]);
}

proof fn lemma_dump_handshake_step(lines: Seq<Seq<char>>, i: int)
    requires
        0 <= i < lines.len(),
    ensures
        dump_handshake_max(lines.subrange(0, i + 1)) == opt_max(
            dump_handshake_max(lines.subrange(0, i)),
            dump_handshake_contrib(lines[i]),
        ),
{
    let t = lines.subrange(0, i + 1);
    assert(t.drop_last() =~= lines.subrange(0, i));
    assert(t.last() == lines[i]);
}

/// Parses the vendor tool's tab-separated dump into interface totals, with
/// the freshest handshake stamp converted to an age relative to `now_sec`.
#[verifier::loop_isolation(false)]
pub fn parse_windows_dump(dump: &str, now_sec: i64) -> (r: (u64, u64, Option<i64>))
    ensures
        r.0 == dump_counter_total(lines_of(dump@), 6),
        r.1 == dump_counter_total(lines_of(dump@), 5),
        r.2 is Some <==> age_of(dump_handshake_max(lines_of(dump@)), now_sec as int) is Some,
        r.2 is Some ==> r.2.unwrap() == age_of(
            dump_handshake_max(lines_of(dump@)),
            now_sec as int,
        ).unwrap(),
{
    let lines = split_char(dump, '\n');
    let ghost lv = lines_of(dump@);
    let mut tx: u64 = 0;
    let mut rx: u64 = 0;
    let mut hs: Option<i64> = None;
    let n = lines.len();
    let mut i: usize = 0;
    proof {
        assert(lv.subrange(0, 0) =~= Seq::<Seq<char>>::empty());
    }
    while i < n
        invariant
            0 <= i <= n,
            tx == dump_counter_total(lv.subrange(0, i as int), 6),
            rx == dump_counter_total(lv.subrange(0, i as int), 5),
            hs is Some <==> dump_handshake_max(lv.subrange(0, i as int)) is Some,
            hs is Some ==> hs.unwrap() == dump_handshake_max(lv.subrange(0, i as int)).unwrap(),
        decreases n - i,
    {
        proof {
            lemma_dump_counter_step(lv, i as int, 6);
            lemma_dump_counter_step(lv, i as int, 5);
            lemma_dump_handshake_step(lv, i as int);
        }
        let ct = dump_counter_value(lines[i].as_str(), 6);
        tx = sat_add_u64(tx, ct);
        let cr = dump_counter_value(lines[i].as_str(), 5);
        rx = sat_add_u64(rx, cr);
        let ch = dump_handshake_value(lines[i].as_str());
        hs = opt_max_i64(hs, ch);
        i += 1;
    }
    proof {
        assert(lv.subrange(0, n as int) =~= lv);
        lemma_dump_handshake_positive(lv);
    }
    match hs {
        None => (tx, rx, None),
        Some(ts) => {
            if now_sec >= ts {
                (tx, rx, Some(now_sec - ts))
            } else {
                (tx, rx, None)
            }
        },
    }
}

} // verus!
