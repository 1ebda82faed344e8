//! The persisted form of a configuration: a JSON document
//! `{"client_id":N,"targets":[{"process_name":...,"display_name":...,"image":...},...]}`.
//!
//! `serialize_config` produces exactly this canonical form and
//! `parse_config` reads it back; `lemma_config_round_trip` proves that
//! parsing a serialized configuration returns it unchanged, client id and
//! target order included.

use vstd::prelude::*;
use vstd::arithmetic::div_mod::lemma_fundamental_div_mod;
use crate::config::{Config, ConfigV, Target, TargetV};

verus! {

/// Relies on String::push: appends the one character `c`.
#[verifier::external_body]
fn push_char(s: &mut String, c: char)
    ensures
        final(s)@ == old(s)@ + seq![c],
{
    s.push(c);
}

// --- string escaping ---------------------------------------------------

/// The escaped form of one string-literal character: quote, backslash,
/// newline, tab and carriage return get a backslash escape, everything
/// else stands for itself.
pub open spec fn esc_char(c: char) -> Seq<char> {
    if c == '"' {
        seq!['\\', '"']
    } else if c == '\\' {
        seq!['\\', '\\']
    } else if c == '\n' {
        seq!['\\', 'n']
    } else if c == '\t' {
        seq!['\\', 't']
    } else if c == '\r' {
        seq!['\\', 'r']
    } else {
        seq![c]
    }
}

/// The escaped form of a whole string body.
pub open spec fn esc(s: Seq<char>) -> Seq<char>
    decreases s.len(),
{
    if s.len() == 0 {
        Seq::empty()
    } else {
        esc_char(s[0]) + esc(s.drop_first())
    }
}

/// A string as serialized: its escaped body between double quotes.
pub open spec fn ser_string(s: Seq<char>) -> Seq<char> {
    seq!['"'] + esc(s) + seq!['"']
}

/// Appends `esc_char(c)` to `out`.
fn push_escaped(out: &mut String, c: char)
    ensures
        final(out)@ == old(out)@ + esc_char(c),
{
    if c == '"' {
        push_char(out, '\\');
        push_char(out, '"');
        proof {
            assert(out@ =~= old(out)@ + esc_char(c));
        }
    } else if c == '\\' {
        push_char(out, '\\');
        push_char(out, '\\');
        proof {
            assert(out@ =~= old(out)@ + esc_char(c));
        }
    } else if c == '\n' {
        push_char(out, '\\');
        push_char(out, 'n');
        proof {
            assert(out@ =~= old(out)@ + esc_char(c));
        }
    } else if c == '\t' {
        push_char(out, '\\');
        push_char(out, 't');
        proof {
            assert(out@ =~= old(out)@ + esc_char(c));
        }
    } else if c == '\r' {
        push_char(out, '\\');
        push_char(out, 'r');
        proof {
            assert(out@ =~= old(out)@ + esc_char(c));
        }
    } else {
        push_char(out, c);
        proof {
            assert(out@ =~= old(out)@ + esc_char(c));
        }
    }
}

/// Appends `esc(s@.skip(i))` to `out`.
fn push_escaped_from(s: &str, i: usize, n: usize, out: &mut String)
    requires
        i <= n,
        n == s@.len(),
    ensures
        final(out)@ == old(out)@ + esc(s@.skip(i as int)),
    decreases n - i,
{
    if i == n {
        proof {
            assert(s@.skip(i as int) =~= Seq::<char>::empty());
            assert(out@ =~= out@ + esc(s@.skip(i as int)));
        }
    } else {
        let c = s.get_char(i);
        push_escaped(out, c);
        let ghost mid = out@;
        push_escaped_from(s, i + 1, n, out);
        proof {
            assert(s@.skip(i as int).drop_first() =~= s@.skip(i as int + 1));
            assert(s@.skip(i as int)[0] == c);
            assert(out@ =~= old(out)@ + esc(s@.skip(i as int)));
        }
    }
}

/// Appends `ser_string(v@)` to `out`.
fn push_ser_string(v: &str, out: &mut String)
    ensures
        final(out)@ == old(out)@ + ser_string(v@),
{
    let n = v.unicode_len();
    push_char(out, '"');
    push_escaped_from(v, 0, n, out);
    push_char(out, '"');
    proof {
        assert(v@.skip(0) =~= v@);
        assert(out@ =~= old(out)@ + ser_string(v@));
    }
}

// --- decimal numbers ----------------------------------------------------

/// The decimal digit character for `d`.
pub open spec fn digit_ch(d: int) -> char {
    if d == 0 {
        '0'
    } else if d == 1 {
        '1'
    } else if d == 2 {
        '2'
    } else if d == 3 {
        '3'
    } else if d == 4 {
        '4'
    } else if d == 5 {
        '5'
    } else if d == 6 {
        '6'
    } else if d == 7 {
        '7'
    } else if d == 8 {
        '8'
    } else {
        '9'
    }
}

/// Whether `c` is a decimal digit.
pub open spec fn is_digit(c: char) -> bool {
    0x30 <= c as u32 && c as u32 <= 0x39
}

/// Numeric value of a digit character.
pub open spec fn digit_val(c: char) -> int {
    c as u32 - 0x30
}

/// The decimal representation of `n`, most significant digit first, with
/// no leading zeros.
pub open spec fn dec_rep(n: int) -> Seq<char>
    decreases n,
{
    if n < 10 {
        seq![digit_ch(n)]
    } else {
        dec_rep(n / 10).push(digit_ch(n % 10))
    }
}

/// The decimal digit character for `d`.
fn digit_char_exec(d: u64) -> (r: char)
    requires
        d < 10,
    ensures
        r == digit_ch(d as int),
{
    match d {
        0 => '0',
        1 => '1',
        2 => '2',
        3 => '3',
        4 => '4',
        5 => '5',
        6 => '6',
        7 => '7',
        8 => '8',
        _ => '9',
    }
}

/// Appends `dec_rep(n)` to `out`.
fn push_dec(n: u64, out: &mut String)
    ensures
        final(out)@ == old(out)@ + dec_rep(n as int),
    decreases n,
{
    if n < 10 {
        push_char(out, digit_char_exec(n));
        proof {
            assert(out@ =~= old(out)@ + dec_rep(n as int));
        }
    } else {
        push_dec(n / 10, out);
        push_char(out, digit_char_exec(n % 10));
        proof {
            assert(out@ =~= old(out)@ + dec_rep(n as int));
        }
    }
}

// --- serialization ------------------------------------------------------

/// The object opening up to the client id value.
pub open spec fn lit_head() -> Seq<char> {
    seq!['{', '"', 'c', 'l', 'i', 'e', 'n', 't', '_', 'i', 'd', '"', ':']
}

/// The separator between the client id and the target array.
pub open spec fn lit_mid() -> Seq<char> {
    seq![',', '"', 't', 'a', 'r', 'g', 'e', 't', 's', '"', ':', '[']
}

/// The key opening a target object.
pub open spec fn lit_pn() -> Seq<char> {
    seq!['{', '"', 'p', 'r', 'o', 'c', 'e', 's', 's', '_', 'n', 'a', 'm', 'e', '"', ':']
}

/// The display-name key of a target object.
pub open spec fn lit_dn() -> Seq<char> {
    seq![',', '"', 'd', 'i', 's', 'p', 'l', 'a', 'y', '_', 'n', 'a', 'm', 'e', '"', ':']
}

/// The image key of a target object.
pub open spec fn lit_im() -> Seq<char> {
    seq![',', '"', 'i', 'm', 'a', 'g', 'e', '"', ':']
}

/// One target as serialized.
pub open spec fn ser_target(t: TargetV) -> Seq<char> {
    lit_pn() + ser_string(t.process_name) + lit_dn() + ser_string(t.display_name) + lit_im()
        + ser_string(t.image) + seq!['}']
}

/// The members of the target array as serialized, comma-separated.
pub open spec fn ser_targets(ts: Seq<TargetV>) -> Seq<char>
    decreases ts.len(),
{
    if ts.len() == 0 {
        Seq::empty()
    } else if ts.len() == 1 {
        ser_target(ts[0])
    } else {
        ser_target(ts[0]) + seq![','] + ser_targets(ts.drop_first())
    }
}

/// A whole configuration as serialized.
pub open spec fn ser_config(c: ConfigV) -> Seq<char> {
    lit_head() + dec_rep(c.client_id as int) + lit_mid() + ser_targets(c.targets) + seq![']', '}']
}

/// Appends `ser_target(t@)` to `out`.
fn push_ser_target(t: &Target, out: &mut String)
    ensures
        final(out)@ == old(out)@ + ser_target(t@),
{
    out.append("{\"process_name\":");
    push_ser_string(t.process_name.as_str(), out);
    out.append(",\"display_name\":");
    push_ser_string(t.display_name.as_str(), out);
    out.append(",\"image\":");
    push_ser_string(t.image.as_str(), out);
    push_char(out, '}');
    proof {
        reveal_strlit("{\"process_name\":");
        reveal_strlit(",\"display_name\":");
        reveal_strlit(",\"image\":");
        assert("{\"process_name\":"@ =~= lit_pn());
        assert(",\"display_name\":"@ =~= lit_dn());
        assert(",\"image\":"@ =~= lit_im());
        assert(out@ =~= old(out)@ + ser_target(t@));
    }
}

/// Appends the serialized members `ts[from..]`, comma-separated, to `out`.
fn push_ser_targets(ts: &Vec<Target>, from: usize, out: &mut String)
    requires
        from <= ts.len(),
    ensures
        final(out)@ == old(out)@ + ser_targets(ts.deep_view().skip(from as int)),
    decreases ts.len() - from,
{
    if from == ts.len() {
        proof {
            assert(ts.deep_view().skip(from as int) =~= Seq::<TargetV>::empty());
            assert(out@ =~= out@ + ser_targets(ts.deep_view().skip(from as int)));
        }
    } else {
        push_ser_target(&ts[from], out);
        proof {
            assert(ts.deep_view().skip(from as int)[0] == ts@[from as int]@);
        }
        if from + 1 < ts.len() {
            push_char(out, ',');
            push_ser_targets(ts, from + 1, out);
            proof {
                assert(ts.deep_view().skip(from as int).drop_first() =~= ts.deep_view().skip(
                    from as int + 1,
                ));
                assert(out@ =~= old(out)@ + ser_targets(ts.deep_view().skip(from as int)));
            }
        } else {
            proof {
                assert(ts.deep_view().skip(from as int).len() == 1);
                assert(out@ =~= old(out)@ + ser_targets(ts.deep_view().skip(from as int)));
            }
        }
    }
}

/// The canonical serialized form of `config`.
pub fn serialize_config(config: &Config) -> (r: String)
    ensures
        r@ == ser_config(config@),
{
    let mut out = String::new();
    out.append("{\"client_id\":");
    push_dec(config.client_id, &mut out);
    out.append(",\"targets\":[");
    push_ser_targets(&config.targets, 0, &mut out);
    out.append("]}");
    proof {
        reveal_strlit("{\"client_id\":");
        reveal_strlit(",\"targets\":[");
        reveal_strlit("]}");
        assert("{\"client_id\":"@ =~= lit_head());
        assert(",\"targets\":["@ =~= lit_mid());
        assert("]}"@ =~= seq![']', '}']);
        assert(config.targets.deep_view().skip(0) =~= config@.targets);
        assert(out@ =~= ser_config(config@));
    }
    out
}

// --- parsing: specification ----------------------------------------------

/// Whether `lit` occurs in `s` at position `i`.
pub open spec fn match_at(s: Seq<char>, i: int, lit: Seq<char>) -> bool {
    0 <= i && i + lit.len() <= s.len() && s.subrange(i, i + lit.len()) == lit
}

/// The character an escape code stands for, if it is a valid code.
pub open spec fn unesc_char(c: char) -> Option<char> {
    if c == '"' {
        Some('"')
    } else if c == '\\' {
        Some('\\')
    } else if c == 'n' {
        Some('\n')
    } else if c == 't' {
        Some('\t')
    } else if c == 'r' {
        Some('\r')
    } else {
        None
    }
}

/// Parses the body of a string literal from `i` up to its closing quote,
/// unescaping as it goes; `acc` holds the characters already read. Returns
/// the body and the position just past the closing quote.
pub open spec fn p_str_tail(s: Seq<char>, i: int, acc: Seq<char>) -> Option<(Seq<char>, int)>
    decreases s.len() - i,
{
    if i < 0 || i >= s.len() {
        None
    } else if s[i] == '"' {
        Some((acc, i + 1))
    } else if s[i] == '\\' {
        if i + 1 >= s.len() {
            None
        } else {
            match unesc_char(s[i + 1]) {
                None => None,
                Some(c) => p_str_tail(s, i + 2, acc + seq![c]),
            }
        }
    } else {
        p_str_tail(s, i + 1, acc + seq![s[i]])
    }
}

/// Parses a quoted string literal at `i`.
pub open spec fn p_string(s: Seq<char>, i: int) -> Option<(Seq<char>, int)> {
    if 0 <= i && i < s.len() && s[i] == '"' {
        p_str_tail(s, i + 1, Seq::empty())
    } else {
        None
    }
}

/// Parses a run of decimal digits starting at `i` into the value
/// accumulated on `acc`, failing on a value beyond `u64::MAX`; stops at the
/// first non-digit.
pub open spec fn p_num(s: Seq<char>, i: int, acc: int) -> Option<(int, int)>
    decreases s.len() - i,
{
    if 0 <= i && i < s.len() && is_digit(s[i]) {
        if acc * 10 + digit_val(s[i]) > u64::MAX as int {
            None
        } else {
            p_num(s, i + 1, acc * 10 + digit_val(s[i]))
        }
    } else {
        Some((acc, i))
    }
}

/// Parses one target object at `i`.
pub open spec fn p_target(s: Seq<char>, i: int) -> Option<(TargetV, int)> {
    if !match_at(s, i, lit_pn()) {
        None
    } else {
        match p_string(s, i + lit_pn().len()) {
            None => None,
            Some((pn, j)) => if !match_at(s, j, lit_dn()) {
                None
            } else {
                match p_string(s, j + lit_dn().len()) {
                    None => None,
                    Some((dn, k)) => if !match_at(s, k, lit_im()) {
                        None
                    } else {
                        match p_string(s, k + lit_im().len()) {
                            None => None,
                            Some((im, m)) => if 0 <= m && m < s.len() && s[m] == '}' {
                                Some(
                                    (
                                        TargetV {
                                            process_name: pn,
                                            display_name: dn,
                                            image: im,
                                        },
                                        m + 1,
                                    ),
                                )
                            } else {
                                None
                            },
                        }
                    },
                }
            },
        }
    }
}

/// Parses the members of the target array from `i` through the closing
/// bracket; returns the targets and the position just past the bracket.
pub open spec fn p_targets(s: Seq<char>, i: int) -> Option<(Seq<TargetV>, int)>
    decreases s.len() - i,
{
    if i < 0 || i >= s.len() {
        None
    } else if s[i] == ']' {
        Some((Seq::empty(), i + 1))
    } else {
        match p_target(s, i) {
            None => None,
            Some((t, j)) => if i < j && j < s.len() {
                if s[j] == ',' {
                    match p_targets(s, j + 1) {
                        None => None,
                        Some((rest, end)) => Some((seq![t] + rest, end)),
                    }
                } else if s[j] == ']' {
                    Some((seq![t], j + 1))
                } else {
                    None
                }
            } else {
                None
            },
        }
    }
}

/// Parses a whole serialized configuration; the document must end right
/// after the closing brace.
pub open spec fn p_config(s: Seq<char>) -> Option<ConfigV> {
    if !match_at(s, 0, lit_head()) {
        None
    } else {
        let i = lit_head().len() as int;
        if !(i < s.len() && is_digit(s[i])) {
            None
        } else {
            match p_num(s, i, 0) {
                None => None,
                Some((n, j)) => if !match_at(s, j, lit_mid()) {
                    None
                } else {
                    match p_targets(s, j + lit_mid().len()) {
                        None => None,
                        Some((ts, k)) => if k + 1 == s.len() && 0 <= k && s[k] == '}' {
                            Some(ConfigV { client_id: n as u64, targets: ts })
                        } else {
                            None
                        },
                    }
                },
            }
        }
    }
}

// --- parsing: execution ---------------------------------------------------

/// Whether `lit` occurs in `s` at character position `i`.
fn match_at_exec(s: &str, i: usize, n: usize, lit: &str) -> (r: bool)
    requires
        n == s@.len(),
    ensures
        r == match_at(s@, i as int, lit@),
{
    let m = lit.unicode_len();
    if i > n || m > n - i {
        return false;
    }
    let mut k: usize = 0;
    while k < m
        invariant
            k <= m,
            i + m <= n,
            n == s@.len(),
            m == lit@.len(),
            forall|q: int| 0 <= q < k ==> s@[i + q] == lit@[q],
        decreases m - k,
    {
        if s.get_char(i + k) != lit.get_char(k) {
            proof {
                if match_at(s@, i as int, lit@) {
                    assert(s@.subrange(i as int, i + lit@.len())[k as int] == s@[i + k]);
                }
            }
            return false;
        }
        k = k + 1;
    }
    proof {
        assert(s@.subrange(i as int, i + lit@.len()) =~= lit@);
    }
    true
}

/// The character an escape code stands for, if it is a valid code.
fn unesc_exec(c: char) -> (r: Option<char>)
    ensures
        r == unesc_char(c),
{
    if c == '"' {
        Some('"')
    } else if c == '\\' {
        Some('\\')
    } else if c == 'n' {
        Some('\n')
    } else if c == 't' {
        Some('\t')
    } else if c == 'r' {
        Some('\r')
    } else {
        None
    }
}

/// Whether `c` is a decimal digit.
fn is_digit_exec(c: char) -> (r: bool)
    ensures
        r == is_digit(c),
{
    let u = c as u32;
    0x30 <= u && u <= 0x39
}

/// Parses a string-literal body; see `p_str_tail`.
fn p_str_tail_exec(s: &str, i: usize, n: usize, acc: String) -> (r: Option<(String, usize)>)
    requires
        i <= n,
        n == s@.len(),
    ensures
        match r {
            None => p_str_tail(s@, i as int, acc@) is None,
            Some(p) => p_str_tail(s@, i as int, acc@) == Some((p.0@, p.1 as int)) && p.1 <= n,
        },
    decreases n - i,
{
    if i == n {
        return None;
    }
    let c = s.get_char(i);
    if c == '"' {
        Some((acc, i + 1))
    } else if c == '\\' {
        if i + 1 == n {
            return None;
        }
        let e = s.get_char(i + 1);
        match unesc_exec(e) {
            None => None,
            Some(u) => {
                let mut acc2 = acc;
                push_char(&mut acc2, u);
                p_str_tail_exec(s, i + 2, n, acc2)
            },
        }
    } else {
        let mut acc2 = acc;
        push_char(&mut acc2, c);
        p_str_tail_exec(s, i + 1, n, acc2)
    }
}

/// Parses a quoted string literal; see `p_string`.
fn p_string_exec(s: &str, i: usize, n: usize) -> (r: Option<(String, usize)>)
    requires
        n == s@.len(),
    ensures
        match r {
            None => p_string(s@, i as int) is None,
            Some(p) => p_string(s@, i as int) == Some((p.0@, p.1 as int)) && p.1 <= n,
        },
{
    if i < n && s.get_char(i) == '"' {
        p_str_tail_exec(s, i + 1, n, String::new())
    } else {
        None
    }
}

/// Parses a run of decimal digits; see `p_num`.
fn p_num_exec(s: &str, i: usize, n: usize, acc: u64) -> (r: Option<(u64, usize)>)
    requires
        i <= n,
        n == s@.len(),
    ensures
        match r {
            None => p_num(s@, i as int, acc as int) is None,
            Some(p) => p_num(s@, i as int, acc as int) == Some((p.0 as int, p.1 as int)) && p.1
                <= n,
        },
    decreases n - i,
{
    if i == n {
        return Some((acc, i));
    }
    let c = s.get_char(i);
    if !is_digit_exec(c) {
        return Some((acc, i));
    }
    let d = (c as u32 - 0x30) as u64;
    proof {
        assert(d == digit_val(s@[i as int]));
    }
    if acc > (u64::MAX - d) / 10 {
        proof {
            assert(acc * 10 + d > u64::MAX) by (nonlinear_arith)
                requires
                    acc > (u64::MAX - d) / 10,
                    d < 10,
            {
            }
        }
        None
    } else {
        proof {
            assert(acc * 10 + d <= u64::MAX) by (nonlinear_arith)
                requires
                    acc <= (u64::MAX - d) / 10,
                    d < 10,
            {
            }
        }
        p_num_exec(s, i + 1, n, acc * 10 + d)
    }
}

/// Parses one target object; see `p_target`.
fn p_target_exec(s: &str, i: usize, n: usize) -> (r: Option<(Target, usize)>)
    requires
        n == s@.len(),
    ensures
        match r {
            None => p_target(s@, i as int) is None,
            Some(p) => p_target(s@, i as int) == Some((p.0@, p.1 as int)) && p.1 <= n,
        },
{
    proof {
        reveal_strlit("{\"process_name\":");
        reveal_strlit(",\"display_name\":");
        reveal_strlit(",\"image\":");
        assert("{\"process_name\":"@ =~= lit_pn());
        assert(",\"display_name\":"@ =~= lit_dn());
        assert(",\"image\":"@ =~= lit_im());
    }
    if !match_at_exec(s, i, n, "{\"process_name\":") {
        return None;
    }
    let lpn = "{\"process_name\":".unicode_len();
    let (pn, j) = match p_string_exec(s, i + lpn, n) {
        None => {
            return None;
        },
        Some(p) => p,
    };
    if !match_at_exec(s, j, n, ",\"display_name\":") {
        return None;
    }
    let ldn = ",\"display_name\":".unicode_len();
    let (dn, k) = match p_string_exec(s, j + ldn, n) {
        None => {
            return None;
        },
        Some(p) => p,
    };
    if !match_at_exec(s, k, n, ",\"image\":") {
        return None;
    }
    let lim = ",\"image\":".unicode_len();
    let (im, m) = match p_string_exec(s, k + lim, n) {
        None => {
            return None;
        },
        Some(p) => p,
    };
    if m < n && s.get_char(m) == '}' {
        Some((Target { process_name: pn, display_name: dn, image: im }, m + 1))
    } else {
        None
    }
}

/// Parses the members of the target array; see `p_targets`.
fn p_targets_exec(s: &str, i: usize, n: usize) -> (r: Option<(Vec<Target>, usize)>)
    requires
        n == s@.len(),
    ensures
        match r {
            None => p_targets(s@, i as int) is None,
            Some(p) => p_targets(s@, i as int) == Some((p.0.deep_view(), p.1 as int)) && p.1 <= n,
        },
    decreases n - i,
{
    if i >= n {
        return None;
    }
    if s.get_char(i) == ']' {
        let empty: Vec<Target> = Vec::new();
        proof {
            assert(empty.deep_view() =~= Seq::<TargetV>::empty());
        }
        return Some((empty, i + 1));
    }
    let (t, j) = match p_target_exec(s, i, n) {
        None => {
            return None;
        },
        Some(p) => p,
    };
    if i < j && j < n {
        if s.get_char(j) == ',' {
            match p_targets_exec(s, j + 1, n) {
                None => None,
                Some((rest, end)) => {
                    let mut out: Vec<Target> = Vec::new();
                    out.push(t);
                    let ghost rest_v = rest.deep_view();
                    let mut rest_vec = rest;
                    out.append(&mut rest_vec);
                    proof {
                        assert(out.deep_view() =~= seq![t@] + rest_v);
                    }
                    Some((out, end))
                },
            }
        } else if s.get_char(j) == ']' {
            let mut out: Vec<Target> = Vec::new();
            out.push(t);
            proof {
                assert(out.deep_view() =~= seq![t@]);
            }
            Some((out, j + 1))
        } else {
            None
        }
    } else {
        None
    }
}

/// Parses the canonical serialized form of a configuration; any document
/// that `serialize_config` produced parses back to the configuration it
/// was produced from.
pub fn parse_config(s: &str) -> (r: Option<Config>)
    ensures
        match r {
            None => p_config(s@) is None,
            Some(c) => p_config(s@) == Some(c@),
        },
{
    let n = s.unicode_len();
    proof {
        reveal_strlit("{\"client_id\":");
        reveal_strlit(",\"targets\":[");
        assert("{\"client_id\":"@ =~= lit_head());
        assert(",\"targets\":["@ =~= lit_mid());
    }
    if !match_at_exec(s, 0, n, "{\"client_id\":") {
        return None;
    }
    let hl = "{\"client_id\":".unicode_len();
    if !(hl < n && is_digit_exec(s.get_char(hl))) {
        return None;
    }
    let (num, j) = match p_num_exec(s, hl, n, 0) {
        None => {
            return None;
        },
        Some(p) => p,
    };
    if !match_at_exec(s, j, n, ",\"targets\":[") {
        return None;
    }
    let ml = ",\"targets\":[".unicode_len();
    let (ts, k) = match p_targets_exec(s, j + ml, n) {
        None => {
            return None;
        },
        Some(p) => p,
    };
    if k < n && k + 1 == n && s.get_char(k) == '}' {
        Some(Config { client_id: num, targets: ts })
    } else {
        None
    }
}

// --- the round trip --------------------------------------------------------

/// When a window of `s` equals `big`, each character of the window equals
/// the corresponding character of `big`.
proof fn lemma_index_window(s: Seq<char>, i: int, big: Seq<char>)
    requires
        0 <= i,
        i + big.len() <= s.len(),
        s.subrange(i, i + big.len()) == big,
    ensures
        forall|j: int| i <= j < i + big.len() ==> (#[trigger] s[j]) == big[j - i],
{
    assert forall|j: int| i <= j < i + big.len() implies (#[trigger] s[j]) == big[j - i] by {
        assert(s.subrange(i, i + big.len())[j - i] == s[j]);
    }
}

proof fn lemma_digit_ch(d: int)
    requires
        0 <= d < 10,
    ensures
        is_digit(digit_ch(d)),
        digit_val(digit_ch(d)) == d,
{
}

proof fn lemma_dec_rep_digits(n: int)
    requires
        n >= 0,
    ensures
        dec_rep(n).len() >= 1,
        forall|k: int| 0 <= k < dec_rep(n).len() ==> is_digit(#[trigger] dec_rep(n)[k]),
    decreases n,
{
    if n < 10 {
        lemma_digit_ch(n);
    } else {
        lemma_dec_rep_digits(n / 10);
        lemma_digit_ch(n % 10);
        assert forall|k: int| 0 <= k < dec_rep(n).len() implies is_digit(
            #[trigger] dec_rep(n)[k],
        ) by {
            if k < dec_rep(n / 10).len() {
                assert(dec_rep(n)[k] == dec_rep(n / 10)[k]);
            } else {
                assert(dec_rep(n)[k] == digit_ch(n % 10));
            }
        }
    }
}

/// Ten to the `k`.
spec fn pow10(k: int) -> int
    decreases k,
{
    if k <= 0 {
        1
    } else {
        10 * pow10(k - 1)
    }
}

proof fn lemma_pow10_pos(k: int)
    ensures
        pow10(k) >= 1,
    decreases k,
{
    if k > 0 {
        lemma_pow10_pos(k - 1);
    }
}

/// Scanning the decimal representation of `m` multiplies the accumulator by
/// the corresponding power of ten and adds `m`, never tripping the overflow
/// cap on the way when the end value fits.
proof fn lemma_p_num_shift(s: Seq<char>, i: int, acc: int, m: int)
    requires
        0 <= i,
        0 <= acc,
        0 <= m,
        i + dec_rep(m).len() <= s.len(),
        s.subrange(i, i + dec_rep(m).len() as int) == dec_rep(m),
        acc * pow10(dec_rep(m).len() as int) + m <= u64::MAX as int,
    ensures
        p_num(s, i, acc) == p_num(
            s,
            i + dec_rep(m).len() as int,
            acc * pow10(dec_rep(m).len() as int) + m,
        ),
    decreases m,
{
    lemma_index_window(s, i, dec_rep(m));
    lemma_dec_rep_digits(m);
    if m < 10 {
        lemma_digit_ch(m);
        assert(dec_rep(m).len() == 1);
        assert(s[i] == digit_ch(m));
        assert(pow10(0) == 1);
        assert(pow10(1) == 10);
        assert(acc * pow10(1) + m == acc * 10 + m);
    } else {
        let m1 = m / 10;
        let d = m % 10;
        let rep1 = dec_rep(m1);
        let l = dec_rep(m).len() as int;
        let l1 = rep1.len() as int;
        assert(dec_rep(m) == rep1.push(digit_ch(d)));
        assert(l == l1 + 1);
        assert(s.subrange(i, i + l1) =~= rep1);
        let mid_acc = acc * pow10(l1) + m1;
        let end_acc = acc * pow10(l) + m;
        assert(pow10(l) == 10 * pow10(l1));
        lemma_pow10_pos(l1);
        assert(acc * pow10(l) == (acc * pow10(l1)) * 10) by (nonlinear_arith)
            requires
                pow10(l) == 10 * pow10(l1),
        {
        }
        lemma_fundamental_div_mod(m, 10);
        assert(end_acc == mid_acc * 10 + d);
        assert(acc * pow10(l1) >= 0) by (nonlinear_arith)
            requires
                acc >= 0,
                pow10(l1) >= 1,
        {
        }
        assert(mid_acc <= end_acc);
        lemma_p_num_shift(s, i, acc, m1);
        assert(s[i + l1] == digit_ch(d));
        lemma_digit_ch(d);
        assert(p_num(s, i + l1, mid_acc) == p_num(s, i + l, end_acc));
    }
}

/// Parsing starts where the decimal representation of `m` stands, with a
/// non-digit (or the end) right after it, yields exactly `m`.
proof fn lemma_p_num_rt(s: Seq<char>, i: int, m: int)
    requires
        0 <= i,
        0 <= m <= u64::MAX as int,
        i + dec_rep(m).len() <= s.len(),
        s.subrange(i, i + dec_rep(m).len() as int) == dec_rep(m),
        i + dec_rep(m).len() == s.len() || !is_digit(s[i + dec_rep(m).len() as int]),
    ensures
        p_num(s, i, 0) == Some((m, i + dec_rep(m).len() as int)),
{
    lemma_pow10_pos(dec_rep(m).len() as int);
    assert(0 * pow10(dec_rep(m).len() as int) == 0);
    lemma_p_num_shift(s, i, 0, m);
}

/// Parsing a string body starts where the escaped form of `x` stands,
/// followed by the closing quote, appends exactly `x` to the accumulator.
proof fn lemma_p_str_tail_rt(s: Seq<char>, i: int, acc: Seq<char>, x: Seq<char>)
    requires
        0 <= i,
        i + esc(x).len() + 1 <= s.len(),
        s.subrange(i, i + esc(x).len() + 1) == esc(x) + seq!['"'],
    ensures
        p_str_tail(s, i, acc) == Some((acc + x, i + esc(x).len() + 1)),
    decreases x.len(),
{
    lemma_index_window(s, i, esc(x) + seq!['"']);
    if x.len() == 0 {
        assert(s[i] == '"');
        assert(acc + x =~= acc);
    } else {
        let c = x[0];
        let x1 = x.drop_first();
        let e1 = esc_char(c);
        assert(esc(x) == e1 + esc(x1));
        if c == '"' || c == '\\' || c == '\n' || c == '\t' || c == '\r' {
            assert(e1.len() == 2);
            assert(s[i] == e1[0]);
            assert(s[i] == '\\');
            assert(s[i + 1] == e1[1]);
            assert(unesc_char(e1[1]) == Some(c));
            assert(s.subrange(i + 2, i + 2 + esc(x1).len() + 1) =~= esc(x1) + seq!['"']);
            lemma_p_str_tail_rt(s, i + 2, acc + seq![c], x1);
            assert(acc + seq![c] + x1 =~= acc + x);
        } else {
            assert(e1 == seq![c]);
            assert(s[i] == c);
            assert(s.subrange(i + 1, i + 1 + esc(x1).len() + 1) =~= esc(x1) + seq!['"']);
            lemma_p_str_tail_rt(s, i + 1, acc + seq![c], x1);
            assert(acc + seq![c] + x1 =~= acc + x);
        }
    }
}

/// Parsing starts where the serialized form of `x` stands yields exactly `x`.
proof fn lemma_p_string_rt(s: Seq<char>, i: int, x: Seq<char>)
    requires
        0 <= i,
        i + ser_string(x).len() <= s.len(),
        s.subrange(i, i + ser_string(x).len() as int) == ser_string(x),
    ensures
        p_string(s, i) == Some((x, i + ser_string(x).len() as int)),
{
    lemma_index_window(s, i, ser_string(x));
    assert(s[i] == '"');
    assert(s.subrange(i + 1, i + 1 + esc(x).len() + 1) =~= esc(x) + seq!['"']);
    lemma_p_str_tail_rt(s, i + 1, Seq::empty(), x);
    assert(Seq::empty() + x =~= x);
}

/// Parsing starts where the serialized form of `t` stands yields exactly `t`.
#[verifier::rlimit(100)]
proof fn lemma_p_target_rt(s: Seq<char>, i: int, t: TargetV)
    requires
        0 <= i,
        i + ser_target(t).len() <= s.len(),
        s.subrange(i, i + ser_target(t).len() as int) == ser_target(t),
    ensures
        p_target(s, i) == Some((t, i + ser_target(t).len() as int)),
{
    lemma_index_window(s, i, ser_target(t));
    let o1 = i + lit_pn().len() as int;
    let o2 = o1 + ser_string(t.process_name).len() as int;
    let o3 = o2 + lit_dn().len() as int;
    let o4 = o3 + ser_string(t.display_name).len() as int;
    let o5 = o4 + lit_im().len() as int;
    let o6 = o5 + ser_string(t.image).len() as int;
    assert(s.subrange(i, o1) =~= lit_pn());
    assert(s.subrange(o1, o2) =~= ser_string(t.process_name));
    assert(s.subrange(o2, o3) =~= lit_dn());
    assert(s.subrange(o3, o4) =~= ser_string(t.display_name));
    assert(s.subrange(o4, o5) =~= lit_im());
    assert(s.subrange(o5, o6) =~= ser_string(t.image));
    assert(s[o6] == '}');
    assert(match_at(s, i, lit_pn()));
    lemma_p_string_rt(s, o1, t.process_name);
    assert(match_at(s, o2, lit_dn()));
    lemma_p_string_rt(s, o3, t.display_name);
    assert(match_at(s, o4, lit_im()));
    lemma_p_string_rt(s, o5, t.image);
}

/// Parsing starts where the serialized members of `ts` stand, followed by
/// the closing bracket, yields exactly `ts`.
#[verifier::rlimit(100)]
proof fn lemma_p_targets_rt(s: Seq<char>, i: int, ts: Seq<TargetV>)
    requires
        0 <= i,
        i + ser_targets(ts).len() + 1 <= s.len(),
        s.subrange(i, i + ser_targets(ts).len() + 1) == ser_targets(ts) + seq![']'],
    ensures
        p_targets(s, i) == Some((ts, i + ser_targets(ts).len() + 1)),
    decreases ts.len(),
{
    lemma_index_window(s, i, ser_targets(ts) + seq![']']);
    if ts.len() == 0 {
        assert(s[i] == ']');
        assert(ts =~= Seq::<TargetV>::empty());
    } else if ts.len() == 1 {
        let stl = ser_target(ts[0]).len() as int;
        assert(s[i] == lit_pn()[0]);
        assert(s[i] != ']');
        assert(s.subrange(i, i + stl) =~= ser_target(ts[0]));
        lemma_p_target_rt(s, i, ts[0]);
        assert(s[i + stl] == ']');
        assert(seq![ts[0]] =~= ts);
    } else {
        let rest = ts.drop_first();
        let stl = ser_target(ts[0]).len() as int;
        assert(ser_targets(ts) == ser_target(ts[0]) + seq![','] + ser_targets(rest));
        assert(s[i] == lit_pn()[0]);
        assert(s[i] != ']');
        assert(s.subrange(i, i + stl) =~= ser_target(ts[0]));
        lemma_p_target_rt(s, i, ts[0]);
        assert(s[i + stl] == ',');
        assert(s.subrange(i + stl + 1, i + stl + 1 + ser_targets(rest).len() + 1)
            =~= ser_targets(rest) + seq![']']);
        lemma_p_targets_rt(s, i + stl + 1, rest);
        assert(seq![ts[0]] + rest =~= ts);
    }
}

/// The round trip: parsing a serialized configuration yields it back
/// unchanged, client id and target order included.
#[verifier::rlimit(100)]
pub proof fn lemma_config_round_trip(c: ConfigV)
    ensures
        p_config(ser_config(c)) == Some(c),
{
    let s = ser_config(c);
    let cid = c.client_id as int;
    let l = dec_rep(cid).len() as int;
    let st = ser_targets(c.targets);
    let h = lit_head().len() as int;
    let j = h + l;
    let a = j + lit_mid().len() as int;
    let k = a + st.len();
    lemma_index_window(s, 0, s);
    assert(s.subrange(0, s.len() as int) =~= s);
    lemma_dec_rep_digits(cid);
    assert(s.subrange(0, h) =~= lit_head());
    assert(match_at(s, 0, lit_head()));
    assert(s.subrange(h, j) =~= dec_rep(cid));
    assert(s[h] == dec_rep(cid)[0]);
    assert(s[j] == lit_mid()[0]);
    assert(!is_digit(s[j]));
    lemma_p_num_rt(s, h, cid);
    assert(s.subrange(j, a) =~= lit_mid());
    assert(match_at(s, j, lit_mid()));
    assert(s.subrange(a, a + st.len() + 1) =~= st + seq![']']);
    lemma_p_targets_rt(s, a, c.targets);
    assert(s[k + 1] == '}');
    assert(k + 2 == s.len());
    assert(p_config(s) == Some(ConfigV { client_id: cid as u64, targets: c.targets }));
    assert(ConfigV { client_id: cid as u64, targets: c.targets } == c);
}

} // verus!
