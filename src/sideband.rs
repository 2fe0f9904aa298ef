//! The remote-progress line grammar of the sideband channel:
//! `<label>: <percent>% (<current>/<total>)[, done.]`.
use vstd::prelude::*;

use crate::text::{char_index, find_char, str_chars, string_from_chars};

verus! {

/// Whether `c` has the Unicode `White_Space` property.
pub open spec fn is_whitespace(c: char) -> bool {
    let u = c as u32;
    ||| 0x09 <= u <= 0x0D
    ||| u == 0x20
    ||| u == 0x85
    ||| u == 0xA0
    ||| u == 0x1680
    ||| 0x2000 <= u <= 0x200A
    ||| u == 0x2028
    ||| u == 0x2029
    ||| u == 0x202F
    ||| u == 0x205F
    ||| u == 0x3000
}

/// Whether `c` is an ASCII digit.
pub open spec fn is_digit(c: char) -> bool {
    '0' <= c <= '9'
}

/// The value of the ASCII digit `c`.
pub open spec fn digit_value(c: char) -> nat {
    (c as u32 - '0' as u32) as nat
}

/// `s` without its leading whitespace.
pub open spec fn trim_start(s: Seq<char>) -> Seq<char>
    decreases s.len(),
{
    if s.len() > 0 && is_whitespace(s[0]) {
        trim_start(s.drop_first())
    } else {
        s
    }
}

/// `s` without its trailing whitespace.
pub open spec fn trim_end(s: Seq<char>) -> Seq<char>
    decreases s.len(),
{
    if s.len() > 0 && is_whitespace(s.last()) {
        trim_end(s.drop_last())
    } else {
        s
    }
}

/// `s` without leading and trailing whitespace.
pub open spec fn trim(s: Seq<char>) -> Seq<char> {
    trim_end(trim_start(s))
}

/// Length of the whitespace run that starts `s`.
pub open spec fn space_run(s: Seq<char>) -> nat
    decreases s.len(),
{
    if s.len() > 0 && is_whitespace(s[0]) {
        1 + space_run(s.drop_first())
    } else {
        0
    }
}

/// Length of the ASCII-digit run that starts `s`.
pub open spec fn digit_run(s: Seq<char>) -> nat
    decreases s.len(),
{
    if s.len() > 0 && is_digit(s[0]) {
        1 + digit_run(s.drop_first())
    } else {
        0
    }
}

/// The number that the ASCII digits `s` write in decimal.
pub open spec fn digits_value(s: Seq<char>) -> nat
    decreases s.len(),
{
    if s.len() == 0 {
        0
    } else {
        digits_value(s.drop_last()) * 10 + digit_value(s.last())
    }
}

/// What follows a run of one or more whitespace characters at the start of `s`.
pub open spec fn after_spaces(s: Seq<char>) -> Option<Seq<char>> {
    let w = space_run(s);
    if w >= 1 {
        Some(s.skip(w as int))
    } else {
        None
    }
}

/// A number of one or more digits at the start of `s` that fits a `usize`,
/// immediately followed by `stop`: its value and what follows `stop`.
pub open spec fn number_then(s: Seq<char>, stop: char) -> Option<(nat, Seq<char>)> {
    let d = digit_run(s);
    if 1 <= d < s.len() && s[d as int] == stop && digits_value(s.take(d as int)) <= usize::MAX {
        Some((digits_value(s.take(d as int)), s.skip(d + 1 as int)))
    } else {
        None
    }
}

/// One parsed progress line.
pub struct SidebandModel {
    pub prefix: Seq<char>,
    pub percent: nat,
    pub m: nat,
    pub n: nat,
    pub done: bool,
}

/// What follows the label and its colon: `<ws><percent>%<ws>(<m>/<n>)[, done.]`.
pub open spec fn parse_counters(prefix: Seq<char>, s: Seq<char>) -> Option<SidebandModel> {
    match after_spaces(s) {
        None => None,
        Some(r1) => match number_then(r1, '%') {
            None => None,
            Some((percent, r2)) => match after_spaces(r2) {
                None => None,
                Some(r3) => if r3.len() > 0 && r3[0] == '(' {
                    match number_then(r3.drop_first(), '/') {
                        None => None,
                        Some((m, r4)) => match number_then(r4, ')') {
                            None => None,
                            Some((n, tail)) => if percent <= 100 && (tail.len() == 0 || tail
                                == ", done."@) {
                                Some(SidebandModel { prefix, percent, m, n, done: tail.len() > 0 })
                            } else {
                                None
                            },
                        },
                    }
                } else {
                    None
                },
            },
        },
    }
}

/// The progress line that `line` is, once trimmed, if it follows the grammar:
/// a non-empty label without `:`, a colon, whitespace, a percentage of at most
/// 100, whitespace, the two counters in parentheses, and an optional `, done.`.
pub open spec fn parse_sideband(line: Seq<char>) -> Option<SidebandModel> {
    let t = trim(line);
    match char_index(t, ':') {
        None => None,
        Some(i) => if i == 0 {
            None
        } else {
            parse_counters(t.take(i as int), t.skip(i + 1 as int))
        },
    }
}

/// A parsed progress line of the sideband channel.
pub struct SidebandProgress {
    pub prefix: String,
    pub percent: usize,
    pub m: usize,
    pub n: usize,
    pub done: bool,
}

impl View for SidebandProgress {
    type V = SidebandModel;

    open spec fn view(&self) -> SidebandModel {
        SidebandModel {
            prefix: self.prefix@,
            percent: self.percent as nat,
            m: self.m as nat,
            n: self.n as nat,
            done: self.done,
        }
    }
}

/// Whether `c` has the Unicode `White_Space` property.
pub fn is_whitespace_char(c: char) -> (r: bool)
    ensures
        r == is_whitespace(c),
{
    let u = c as u32;
    (0x09 <= u && u <= 0x0D) || u == 0x20 || u == 0x85 || u == 0xA0 || u == 0x1680 || (0x2000
        <= u && u <= 0x200A) || u == 0x2028 || u == 0x2029 || u == 0x202F || u == 0x205F || u
        == 0x3000
}

proof fn lemma_trim_start_skip(s: Seq<char>, i: int)
    requires
        0 <= i < s.len(),
        is_whitespace(s[i]),
    ensures
        trim_start(s.skip(i)) == trim_start(s.skip(i + 1)),
{
    assert(s.skip(i).drop_first() =~= s.skip(i + 1));
}

proof fn lemma_trim_end_take(s: Seq<char>, j: int)
    requires
        0 < j <= s.len(),
        is_whitespace(s[j - 1]),
    ensures
        trim_end(s.take(j)) == trim_end(s.take(j - 1)),
{
    assert(s.take(j).drop_last() =~= s.take(j - 1));
}

/// The characters of `s` without leading and trailing whitespace.
pub fn trim_chars(s: &[char]) -> (r: Vec<char>)
    ensures
        r@ == trim(s@),
{
    let mut i: usize = 0;
    assert(s@.skip(0) =~= s@);
    while i < s.len() && is_whitespace_char(s[i])
        invariant
            i <= s.len(),
            trim_start(s@) == trim_start(s@.skip(i as int)),
        decreases s.len() - i,
    {
        proof {
            lemma_trim_start_skip(s@, i as int);
        }
        i = i + 1;
    }
    let ghost rest = s@.skip(i as int);
    assert(trim_start(s@) == rest);
    let mut j: usize = s.len();
    assert(rest.take(j - i) =~= rest);
    while j > i && is_whitespace_char(s[j - 1])
        invariant
            i <= j <= s.len(),
            rest == s@.skip(i as int),
            trim_end(rest) == trim_end(rest.take(j - i)),
        decreases j,
    {
        proof {
            lemma_trim_end_take(rest, j - i);
        }
        j = j - 1;
    }
    let mut out: Vec<char> = Vec::new();
    let mut k: usize = i;
    while k < j
        invariant
            i <= k <= j <= s.len(),
            out@ == s@.subrange(i as int, k as int),
        decreases j - k,
    {
        out.push(s[k]);
        k = k + 1;
        proof {
            assert(out@ =~= s@.subrange(i as int, k as int));
        }
    }
    assert(rest.take(j - i) =~= s@.subrange(i as int, j as int));
    out
}

proof fn lemma_space_run_step(s: Seq<char>, i: int)
    requires
        0 <= i < s.len(),
        is_whitespace(s[i]),
    ensures
        space_run(s.skip(i)) == 1 + space_run(s.skip(i + 1)),
{
    assert(s.skip(i).drop_first() =~= s.skip(i + 1));
}

proof fn lemma_digit_run_step(s: Seq<char>, i: int)
    requires
        0 <= i < s.len(),
        is_digit(s[i]),
    ensures
        digit_run(s.skip(i)) == 1 + digit_run(s.skip(i + 1)),
{
    assert(s.skip(i).drop_first() =~= s.skip(i + 1));
}

/// Number of whitespace characters from `from` on, up to the first other one.
fn count_spaces(s: &[char], from: usize) -> (r: usize)
    requires
        from <= s.len(),
    ensures
        r == space_run(s@.skip(from as int)),
        from + r <= s.len(),
{
    let mut i: usize = from;
    while i < s.len() && is_whitespace_char(s[i])
        invariant
            from <= i <= s.len(),
            space_run(s@.skip(from as int)) == (i - from) + space_run(s@.skip(i as int)),
        decreases s.len() - i,
    {
        proof {
            lemma_space_run_step(s@, i as int);
        }
        i = i + 1;
    }
    proof {
        if i == s.len() {
            assert(s@.skip(i as int).len() == 0);
        }
    }
    i - from
}

/// Number of ASCII digits from `from` on, up to the first other character.
fn count_digits(s: &[char], from: usize) -> (r: usize)
    requires
        from <= s.len(),
    ensures
        r == digit_run(s@.skip(from as int)),
        from + r <= s.len(),
{
    let mut i: usize = from;
    while i < s.len() && '0' <= s[i] && s[i] <= '9'
        invariant
            from <= i <= s.len(),
            digit_run(s@.skip(from as int)) == (i - from) + digit_run(s@.skip(i as int)),
        decreases s.len() - i,
    {
        proof {
            lemma_digit_run_step(s@, i as int);
        }
        i = i + 1;
    }
    proof {
        if i == s.len() {
            assert(s@.skip(i as int).len() == 0);
        }
    }
    i - from
}

proof fn lemma_digits_value_grows(s: Seq<char>, k: int)
    requires
        0 <= k <= s.len(),
    ensures
        digits_value(s.take(k)) <= digits_value(s),
    decreases s.len() - k,
{
    if k < s.len() {
        lemma_digits_value_grows(s, k + 1);
        assert(s.take(k + 1).drop_last() =~= s.take(k));
    } else {
        assert(s.take(k) =~= s);
    }
}

/// The value of the digits `s[from..to]`, if it fits a `usize`.
fn digits_to_usize(s: &[char], from: usize, to: usize) -> (r: Option<usize>)
    requires
        from <= to <= s.len(),
        forall|k: int| from <= k < to ==> is_digit(#[trigger] s@[k]),
    ensures
        match r {
            Some(v) => v == digits_value(s@.subrange(from as int, to as int)),
            None => digits_value(s@.subrange(from as int, to as int)) > usize::MAX,
        },
{
    let ghost full = s@.subrange(from as int, to as int);
    let mut acc: usize = 0;
    let mut i: usize = from;
    while i < to
        invariant
            from <= i <= to <= s.len(),
            full == s@.subrange(from as int, to as int),
            forall|k: int| from <= k < to ==> is_digit(#[trigger] s@[k]),
            acc == digits_value(full.take(i - from)),
        decreases to - i,
    {
        let ghost upto = full.take(i - from + 1);
        proof {
            assert(upto.drop_last() =~= full.take(i - from));
            assert(upto.last() == s@[i as int]);
        }
        let d = (s[i] as u32 - '0' as u32) as usize;
        match acc.checked_mul(10) {
            None => {
                proof {
                    lemma_digits_value_grows(full, i - from + 1);
                }
                return None;
            },
            Some(t) => match t.checked_add(d) {
                None => {
                    proof {
                        lemma_digits_value_grows(full, i - from + 1);
                    }
                    return None;
                },
                Some(v) => {
                    acc = v;
                },
            },
        }
        i = i + 1;
    }
    proof {
        assert(full.take(to - from) =~= full);
    }
    Some(acc)
}

/// A number at `from` followed by `stop`: its value and the index after `stop`.
fn read_number_then(s: &[char], from: usize, stop: char) -> (r: Option<(usize, usize)>)
    requires
        from <= s.len(),
    ensures
        match number_then(s@.skip(from as int), stop) {
            None => r is None,
            Some((v, rest)) => r matches Some((x, next)) && x == v && next <= s.len() && rest
                == s@.skip(next as int),
        },
{
    let ghost t = s@.skip(from as int);
    let d = count_digits(s, from);
    if d == 0 || from + d >= s.len() || s[from + d] != stop {
        return None;
    }
    proof {
        assert forall|k: int| from <= k < from + d implies is_digit(#[trigger] s@[k]) by {
            lemma_digit_run_prefix(t, k - from);
            assert(t[k - from] == s@[k]);
        }
        assert(t.take(d as int) =~= s@.subrange(from as int, (from + d) as int));
        assert(t.skip(d + 1) =~= s@.skip((from + d + 1) as int));
    }
    match digits_to_usize(s, from, from + d) {
        None => None,
        Some(v) => Some((v, from + d + 1)),
    }
}

proof fn lemma_digit_run_prefix(s: Seq<char>, k: int)
    requires
        0 <= k < digit_run(s),
    ensures
        k < s.len(),
        is_digit(s[k]),
    decreases k,
{
    if k > 0 {
        lemma_digit_run_prefix(s.drop_first(), k - 1);
    }
}

/// Whether `s[from..]` is exactly `, done.`.
fn is_done_suffix(s: &[char], from: usize) -> (r: bool)
    requires
        from <= s.len(),
    ensures
        r == (s@.skip(from as int) == ", done."@),
{
    proof {
        reveal_strlit(", done.");
    }
    let expected = [',', ' ', 'd', 'o', 'n', 'e', '.'];
    if s.len() - from != 7 {
        proof {
            assert(s@.skip(from as int).len() != ", done."@.len());
        }
        return false;
    }
    let mut k: usize = 0;
    while k < 7
        invariant
            k <= 7,
            s.len() - from == 7,
            expected@ == ", done."@,
            forall|j: int| 0 <= j < k ==> s@[from + j] == expected@[j],
        decreases 7 - k,
    {
        if s[from + k] != expected[k] {
            proof {
                assert(s@.skip(from as int)[k as int] != ", done."@[k as int]);
            }
            return false;
        }
        k = k + 1;
    }
    proof {
        assert(s@.skip(from as int) =~= ", done."@);
    }
    true
}

/// The progress line after the label `t[..colon]` and its colon, if the rest
/// of `t` follows the grammar.
fn parse_counters_at(t: &[char], colon: usize) -> (r: Option<SidebandProgress>)
    requires
        colon < t.len(),
    ensures
        match r {
            Some(p) => parse_counters(t@.take(colon as int), t@.skip(colon + 1)) == Some(p@),
            None => parse_counters(t@.take(colon as int), t@.skip(colon + 1)) is None,
        },
{
    let ghost prefix = t@.take(colon as int);
    let ghost s0 = t@.skip(colon + 1);
    let w1 = count_spaces(t, colon + 1);
    if w1 == 0 {
        return None;
    }
    let p1 = colon + 1 + w1;
    proof {
        assert(s0.skip(w1 as int) =~= t@.skip(p1 as int));
    }
    let (percent, p2) = match read_number_then(t, p1, '%') {
        None => return None,
        Some(x) => x,
    };
    let w2 = count_spaces(t, p2);
    if w2 == 0 {
        return None;
    }
    let p3 = p2 + w2;
    proof {
        assert(t@.skip(p2 as int).skip(w2 as int) =~= t@.skip(p3 as int));
    }
    if p3 >= t.len() || t[p3] != '(' {
        return None;
    }
    proof {
        assert(t@.skip(p3 as int).drop_first() =~= t@.skip(p3 + 1));
    }
    let (m, p4) = match read_number_then(t, p3 + 1, '/') {
        None => return None,
        Some(x) => x,
    };
    let (n, p5) = match read_number_then(t, p4, ')') {
        None => return None,
        Some(x) => x,
    };
    if percent > 100 {
        return None;
    }
    let done = if p5 == t.len() {
        false
    } else if is_done_suffix(t, p5) {
        true
    } else {
        proof {
            assert(t@.skip(p5 as int).len() != 0);
        }
        return None;
    };
    let (head, _) = t.split_at(colon);
    proof {
        assert(head@ =~= prefix);
    }
    Some(SidebandProgress { prefix: string_from_chars(head), percent, m, n, done })
}

/// Parses one sideband line: trimmed, then matched against the grammar.
pub fn parse_sideband_chars(line: &[char]) -> (r: Option<SidebandProgress>)
    ensures
        match r {
            Some(p) => parse_sideband(line@) == Some(p@),
            None => parse_sideband(line@) is None,
        },
{
    let trimmed = trim_chars(line);
    let t = trimmed.as_slice();
    assert(t@ == trim(line@));
    match find_char(t, ':') {
        None => None,
        Some(i) => if i == 0 {
            None
        } else {
            parse_counters_at(t, i)
        },
    }
}

/// Parses a progress line such as `Compressing objects: 100% (129/146), done.`
/// or `Receiving objects:  50% (10/20)`.
pub fn parse_sideband_msg(msg: &str) -> (r: Option<SidebandProgress>)
    ensures
        match r {
            Some(p) => parse_sideband(msg@) == Some(p@),
            None => parse_sideband(msg@) is None,
        },
{
    let chars = str_chars(msg);
    parse_sideband_chars(chars.as_slice())
}

} // verus!
