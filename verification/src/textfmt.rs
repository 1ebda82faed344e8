//! Two-line layout of a display name.
//!
//! A display name that fits within the character limit stays on one line.
//! A longer one is split on whitespace: words are accumulated greedily into
//! the first line and the rest are joined onto the second, except that a
//! single word (or a first word longer than the limit) forces a hard split
//! at the limit. Both lines are trimmed of surrounding whitespace.

use vstd::prelude::*;

verus! {

/// The Unicode white-space characters: the set that `split_whitespace`
/// and `trim` recognize.
pub open spec fn is_space_ch(c: char) -> bool {
    let u = c as u32;
    ||| u == 0x20
    ||| (0x09 <= u && u <= 0x0d)
    ||| u == 0x85
    ||| u == 0xa0
    ||| u == 0x1680
    ||| (0x2000 <= u && u <= 0x200a)
    ||| u == 0x2028
    ||| u == 0x2029
    ||| u == 0x202f
    ||| u == 0x205f
    ||| u == 0x3000
}

pub fn is_space(c: char) -> (r: bool)
    ensures
        r == is_space_ch(c),
{
    let u = c as u32;
    u == 0x20 || (0x09 <= u && u <= 0x0d) || u == 0x85 || u == 0xa0 || u == 0x1680 || (0x2000 <= u
        && u <= 0x200a) || u == 0x2028 || u == 0x2029 || u == 0x202f || u == 0x205f || u == 0x3000
}

/// `s` with its leading white space removed.
pub open spec fn trim_start_sp(s: Seq<char>) -> Seq<char>
    decreases s.len(),
{
    if s.len() > 0 && is_space_ch(s[0]) {
        trim_start_sp(s.drop_first())
    } else {
        s
    }
}

/// `s` with its trailing white space removed.
pub open spec fn trim_end_sp(s: Seq<char>) -> Seq<char>
    decreases s.len(),
{
    if s.len() > 0 && is_space_ch(s[s.len() - 1]) {
        trim_end_sp(s.drop_last())
    } else {
        s
    }
}

/// `s` with white space removed from both ends.
pub open spec fn trim_sp(s: Seq<char>) -> Seq<char> {
    trim_end_sp(trim_start_sp(s))
}

/// Index of the first non-space character at or after `i`, or `n` if all
/// remaining characters are white space.
fn first_nonspace(s: &str, i: usize, n: usize) -> (r: usize)
    requires
        i <= n,
        n == s@.len(),
    ensures
        i <= r <= n,
        trim_start_sp(s@.skip(i as int)) == s@.skip(r as int),
    decreases n - i,
{
    if i == n {
        proof {
            assert(s@.skip(i as int) =~= Seq::<char>::empty());
        }
        i
    } else if is_space(s.get_char(i)) {
        proof {
            assert(s@.skip(i as int).drop_first() =~= s@.skip(i as int + 1));
        }
        first_nonspace(s, i + 1, n)
    } else {
        proof {
            assert(s@.skip(i as int)[0] == s@[i as int]);
        }
        i
    }
}

/// Index just past the last non-space character of `s@.subrange(a, j)`,
/// or `a` if that range is all white space.
fn last_nonspace(s: &str, a: usize, j: usize) -> (r: usize)
    requires
        a <= j <= s@.len(),
    ensures
        a <= r <= j,
        trim_end_sp(s@.subrange(a as int, j as int)) == s@.subrange(a as int, r as int),
    decreases j,
{
    if j == a {
        proof {
            assert(s@.subrange(a as int, a as int) =~= Seq::<char>::empty());
        }
        a
    } else if is_space(s.get_char(j - 1)) {
        proof {
            assert(s@.subrange(a as int, j as int).drop_last() =~= s@.subrange(
                a as int,
                j as int - 1,
            ));
        }
        last_nonspace(s, a, j - 1)
    } else {
        proof {
            let sub = s@.subrange(a as int, j as int);
            assert(sub[sub.len() - 1] == s@[j as int - 1]);
        }
        j
    }
}

/// Copy of `s` with surrounding white space removed.
pub fn trim_str(s: &str) -> (r: String)
    ensures
        r@ == trim_sp(s@),
{
    let n = s.unicode_len();
    let a = first_nonspace(s, 0, n);
    let b = last_nonspace(s, a, n);
    proof {
        assert(s@.skip(0) =~= s@);
        assert(s@.skip(a as int) =~= s@.subrange(a as int, n as int));
    }
    s.substring_char(a, b).to_owned()
}

/// Index of the first white-space character at or after `i`, or the end of
/// `s`: the end of the word that starts at `i`.
pub open spec fn word_end(s: Seq<char>, i: int) -> int
    decreases s.len() - i,
{
    if i >= s.len() || is_space_ch(s[i]) {
        i
    } else {
        word_end(s, i + 1)
    }
}

pub proof fn lemma_word_end_bounds(s: Seq<char>, i: int)
    requires
        0 <= i <= s.len(),
    ensures
        i <= word_end(s, i) <= s.len(),
        i < s.len() && !is_space_ch(s[i]) ==> word_end(s, i) > i,
    decreases s.len() - i,
{
    if i < s.len() && !is_space_ch(s[i]) {
        lemma_word_end_bounds(s, i + 1);
    }
}

/// The white-space-separated words of `s` from position `i` on, in order.
pub open spec fn words_from(s: Seq<char>, i: int) -> Seq<Seq<char>>
    decreases s.len() - i,
    when 0 <= i <= s.len()
    via words_from_decreases
{
    if i >= s.len() {
        Seq::empty()
    } else if is_space_ch(s[i]) {
        words_from(s, i + 1)
    } else {
        seq![s.subrange(i, word_end(s, i))] + words_from(s, word_end(s, i))
    }
}

#[via_fn]
proof fn words_from_decreases(s: Seq<char>, i: int) {
    if i < s.len() && !is_space_ch(s[i]) {
        lemma_word_end_bounds(s, i);
    }
}

/// The words of `s`, in order.
pub open spec fn words_of(s: Seq<char>) -> Seq<Seq<char>> {
    words_from(s, 0)
}

/// Number of words that fit on the first line. `acc` counts the characters
/// accumulated so far, each word costing its own length plus one joining
/// space; word `k` is taken while `acc` plus its length stays within the
/// limit, and the first word that does not fit ends the count.
pub open spec fn fit_from(ws: Seq<Seq<char>>, limit: int, acc: int, k: int) -> int
    decreases ws.len() - k,
{
    if k < 0 || k >= ws.len() {
        k
    } else if acc + ws[k].len() <= limit {
        fit_from(ws, limit, acc + 1 + ws[k].len(), k + 1)
    } else {
        k
    }
}

/// The words `ws[from .. to]` joined by single spaces.
pub open spec fn join_range(ws: Seq<Seq<char>>, from: int, to: int) -> Seq<char>
    decreases to - from,
{
    if from < 0 || from >= to || to > ws.len() {
        Seq::empty()
    } else if from == to - 1 {
        ws[from]
    } else {
        ws[from] + seq![' '] + join_range(ws, from + 1, to)
    }
}

/// The two lines that a display name is laid out on, given the per-line
/// character limit:
/// - a name within the limit stays on the first line;
/// - a single word, or a first word longer than the limit, forces a hard
///   character split at the limit;
/// - otherwise words are accumulated greedily onto the first line and the
///   remaining words are joined onto the second;
/// - both lines are trimmed of surrounding white space.
pub open spec fn layout_sp(s: Seq<char>, limit: int) -> (Seq<char>, Seq<char>) {
    if s.len() <= limit {
        (trim_sp(s), Seq::<char>::empty())
    } else {
        let ws = words_of(s);
        if ws.len() <= 1 || ws[0].len() > limit {
            (trim_sp(s.take(limit)), trim_sp(s.skip(limit)))
        } else {
            let k = fit_from(ws, limit, 0, 0);
            (trim_sp(join_range(ws, 0, k)), trim_sp(join_range(ws, k, ws.len() as int)))
        }
    }
}

/// A display name split onto two presentation lines; the second is empty
/// when everything fits on the first.
pub struct LayoutResult {
    pub line1: String,
    pub line2: String,
}

/// Collects the words of `s` from position `i` on into `out`.
fn push_words(s: &str, i: usize, n: usize, out: &mut Vec<String>)
    requires
        i <= n,
        n == s@.len(),
    ensures
        final(out).deep_view() == old(out).deep_view() + words_from(s@, i as int),
    decreases n - i,
{
    if i == n {
        proof {
            assert(out.deep_view() =~= out.deep_view() + words_from(s@, i as int));
        }
    } else if is_space(s.get_char(i)) {
        push_words(s, i + 1, n, out);
    } else {
        proof {
            lemma_word_end_bounds(s@, i as int);
        }
        let e = word_end_exec(s, i, n);
        let w = s.substring_char(i, e).to_owned();
        let ghost before = out.deep_view();
        out.push(w);
        proof {
            assert(out.deep_view() =~= before.push(s@.subrange(i as int, e as int)));
        }
        let ghost mid = out.deep_view();
        push_words(s, e, n, out);
        proof {
            assert(out.deep_view() =~= before + words_from(s@, i as int));
        }
    }
}

/// Index of the first white-space character at or after `i`.
fn word_end_exec(s: &str, i: usize, n: usize) -> (r: usize)
    requires
        i <= n,
        n == s@.len(),
    ensures
        r == word_end(s@, i as int),
        i <= r <= n,
    decreases n - i,
{
    if i == n {
        i
    } else if is_space(s.get_char(i)) {
        i
    } else {
        word_end_exec(s, i + 1, n)
    }
}

/// The words of `s`, in order.
fn collect_words(s: &str) -> (r: Vec<String>)
    ensures
        r.deep_view() == words_of(s@),
{
    let n = s.unicode_len();
    let mut out: Vec<String> = Vec::new();
    push_words(s, 0, n, &mut out);
    proof {
        assert(out.deep_view() =~= words_of(s@));
    }
    out
}

/// Number of words that fit on the first line, continuing from word `k`
/// with `acc` characters already accumulated.
fn fit_exec(words: &Vec<String>, limit: usize, acc: usize, k: usize) -> (r: usize)
    requires
        limit < usize::MAX,
        k <= words.len(),
    ensures
        r == fit_from(words.deep_view(), limit as int, acc as int, k as int),
        k <= r <= words.len(),
    decreases words.len() - k,
{
    if k == words.len() {
        k
    } else {
        let wlen = words[k].as_str().unicode_len();
        proof {
            assert(words.deep_view()[k as int] == words@[k as int]@);
        }
        if acc <= limit && wlen <= limit - acc {
            fit_exec(words, limit, acc + 1 + wlen, k + 1)
        } else {
            k
        }
    }
}

/// The words `words[from .. to]` joined by single spaces.
fn join_exec(words: &Vec<String>, from: usize, to: usize) -> (r: String)
    requires
        from <= to <= words.len(),
    ensures
        r@ == join_range(words.deep_view(), from as int, to as int),
    decreases to - from,
{
    if from >= to {
        String::new()
    } else if from + 1 == to {
        proof {
            assert(words.deep_view()[from as int] == words@[from as int]@);
        }
        words[from].as_str().to_owned()
    } else {
        let mut out = words[from].as_str().to_owned();
        out.append(" ");
        let rest = join_exec(words, from + 1, to);
        out.append(rest.as_str());
        proof {
            reveal_strlit(" ");
            assert(" "@ =~= seq![' ']);
            assert(words.deep_view()[from as int] == words@[from as int]@);
        }
        out
    }
}

proof fn lemma_trim_start_le(s: Seq<char>)
    ensures
        trim_start_sp(s).len() <= s.len(),
    decreases s.len(),
{
    if s.len() > 0 && is_space_ch(s[0]) {
        lemma_trim_start_le(s.drop_first());
    }
}

proof fn lemma_trim_end_le(s: Seq<char>)
    ensures
        trim_end_sp(s).len() <= s.len(),
    decreases s.len(),
{
    if s.len() > 0 && is_space_ch(s[s.len() - 1]) {
        lemma_trim_end_le(s.drop_last());
    }
}

/// Trimming never lengthens a line.
proof fn lemma_trim_le(s: Seq<char>)
    ensures
        trim_sp(s).len() <= s.len(),
{
    lemma_trim_start_le(s);
    lemma_trim_end_le(trim_start_sp(s));
}

/// Extending a joined range by one word appends a space and that word.
proof fn lemma_join_snoc(ws: Seq<Seq<char>>, from: int, to: int)
    requires
        0 <= from < to < ws.len(),
    ensures
        join_range(ws, from, to + 1) == join_range(ws, from, to) + seq![' '] + ws[to],
    decreases to - from,
{
    if from == to - 1 {
        assert(join_range(ws, from + 1, to + 1) == ws[to]);
        assert(join_range(ws, from, to + 1) == ws[from] + seq![' '] + join_range(ws, from + 1, to + 1));
        assert(join_range(ws, from, to) == ws[from]);
        assert(join_range(ws, from, to + 1) =~= join_range(ws, from, to) + seq![' '] + ws[to]);
    } else {
        lemma_join_snoc(ws, from + 1, to);
        assert(join_range(ws, from, to + 1) == ws[from] + seq![' '] + join_range(ws, from + 1, to + 1));
        assert(join_range(ws, from, to) == ws[from] + seq![' '] + join_range(ws, from + 1, to));
        assert(join_range(ws, from, to + 1) =~= join_range(ws, from, to) + seq![' '] + ws[to]);
    }
}

/// The words accumulated greedily never outgrow the limit: from an
/// accumulator one over the joined length, the joined prefix the count
/// settles on stays within the limit.
proof fn lemma_fit_len(ws: Seq<Seq<char>>, limit: int, acc: int, k: int)
    requires
        1 <= k <= ws.len(),
        acc == join_range(ws, 0, k).len() + 1,
        acc <= limit + 1,
    ensures
        join_range(ws, 0, fit_from(ws, limit, acc, k)).len() <= limit,
        0 <= fit_from(ws, limit, acc, k) <= ws.len(),
    decreases ws.len() - k,
{
    if k < ws.len() && acc + ws[k].len() <= limit {
        lemma_join_snoc(ws, 0, k);
        lemma_fit_len(ws, limit, acc + 1 + ws[k].len(), k + 1);
    }
}

/// The first layout line always fits the limit, whichever rule produced it.
pub proof fn lemma_layout_line1_fits(s: Seq<char>, limit: int)
    requires
        limit >= 0,
    ensures
        layout_sp(s, limit).0.len() <= limit,
{
    if s.len() <= limit {
        lemma_trim_le(s);
    } else {
        let ws = words_of(s);
        if ws.len() <= 1 || ws[0].len() > limit {
            lemma_trim_le(s.take(limit));
        } else {
            assert(fit_from(ws, limit, 0, 0) == fit_from(ws, limit, 1 + ws[0].len() as int, 1));
            lemma_fit_len(ws, limit, 1 + ws[0].len() as int, 1);
            lemma_trim_le(join_range(ws, 0, fit_from(ws, limit, 0, 0)));
        }
    }
}

/// Lays `display_name` out on two lines of at most `limit` characters where
/// word boundaries allow it; see `layout_sp` for the exact rules.
pub fn layout(display_name: &str, limit: usize) -> (r: LayoutResult)
    requires
        limit < usize::MAX,
    ensures
        r.line1@ == layout_sp(display_name@, limit as int).0,
        r.line2@ == layout_sp(display_name@, limit as int).1,
{
    let n = display_name.unicode_len();
    if n <= limit {
        return LayoutResult { line1: trim_str(display_name), line2: String::new() };
    }
    let words = collect_words(display_name);
    let single = words.len() <= 1 || {
        let first_len = words[0].as_str().unicode_len();
        proof {
            assert(words.deep_view()[0] == words@[0]@);
        }
        first_len > limit
    };
    if single {
        let l1 = trim_str(display_name.substring_char(0, limit));
        let l2 = trim_str(display_name.substring_char(limit, n));
        proof {
            assert(display_name@.subrange(0, limit as int) =~= display_name@.take(limit as int));
            assert(display_name@.subrange(limit as int, n as int) =~= display_name@.skip(
                limit as int,
            ));
        }
        LayoutResult { line1: l1, line2: l2 }
    } else {
        let k = fit_exec(&words, limit, 0, 0);
        let j1 = join_exec(&words, 0, k);
        let j2 = join_exec(&words, k, words.len());
        LayoutResult { line1: trim_str(j1.as_str()), line2: trim_str(j2.as_str()) }
    }
}

} // verus!
