use vstd::prelude::*;

use crate::text::{decimal, push_decimal};

verus! {

// ----- The prompt -----

/// `n: label`, with `n` the 1-based number of the label at index `i`.
pub open spec fn numbered_label(i: int, label: Seq<char>) -> Seq<char> {
    decimal((i + 1) as nat) + seq![':', ' '] + label
}

/// The numbered labels, separated by `, `.
pub open spec fn numbered_labels(labels: Seq<Seq<char>>) -> Seq<char>
    decreases labels.len(),
{
    if labels.len() == 0 {
        seq![]
    } else if labels.len() == 1 {
        numbered_label(0, labels[0])
    } else {
        numbered_labels(labels.drop_last()) + seq![',', ' '] + numbered_label(
            labels.len() - 1,
            labels.last(),
        )
    }
}

/// The title in double quotes followed by a space, or nothing when there is no title.
pub open spec fn title_part(title: Option<Seq<char>>) -> Seq<char> {
    match title {
        Some(t) => seq!['"'] + t + seq!['"', ' '],
        None => seq![],
    }
}

/// `Select <title part>between (<numbered labels>): `
pub open spec fn prompt_text(labels: Seq<Seq<char>>, title: Option<Seq<char>>) -> Seq<char> {
    seq!['S', 'e', 'l', 'e', 'c', 't', ' '] + title_part(title) + seq![
        'b',
        'e',
        't',
        'w',
        'e',
        'e',
        'n',
        ' ',
        '(',
    ] + numbered_labels(labels) + seq![')', ':', ' ']
}

/// The views of some string slices.
pub open spec fn str_views(labels: Seq<&str>) -> Seq<Seq<char>> {
    labels.map_values(|l: &str| l@)
}

/// The view of an optional string slice.
pub open spec fn opt_str_view(title: Option<&str>) -> Option<Seq<char>> {
    match title {
        Some(t) => Some(t@),
        None => None,
    }
}

/// The question that asks a person to choose among numbered labels.
pub fn selection_prompt(labels: &[&str], title: Option<&str>) -> (p: String)
    ensures
        p@ == prompt_text(str_views(labels@), opt_str_view(title)),
{
    proof {
        reveal_strlit("Select ");
        reveal_strlit("\"");
        reveal_strlit("\" ");
        reveal_strlit("between (");
        reveal_strlit("): ");
    }
    let mut p = String::from_str("Select ");
    match title {
        Some(t) => {
            p.append("\"");
            p.append(t);
            p.append("\" ");
        },
        None => {},
    }
    p.append("between (");
    let ghost head = p@;
    let ghost views = str_views(labels@);
    let mut i: usize = 0;
    while i < labels.len()
        invariant
            i <= labels@.len(),
            views == str_views(labels@),
            p@ == head + numbered_labels(views.take(i as int)),
        decreases labels@.len() - i,
    {
        proof {
            reveal_strlit(", ");
            reveal_strlit(": ");
        }
        if i > 0 {
            p.append(", ");
        }
        push_decimal(&mut p, i + 1);
        p.append(": ");
        p.append(labels[i]);
        let ghost done = views.take(i + 1);
        assert(done.drop_last() =~= views.take(i as int));
        assert(done.last() == labels@[i as int]@);
        if i == 0 {
            assert(done[0] == labels@[0]@);
        }
        assert(p@ =~= head + numbered_labels(done));
        i = i + 1;
    }
    assert(views.take(labels@.len() as int) =~= views);
    p.append("): ");
    assert(p@ =~= prompt_text(views, opt_str_view(title)));
    p
}

// ----- The answer -----

/// The characters with the Unicode property White_Space, which `str::trim` removes.
pub open spec fn is_white_space(c: char) -> bool {
    ||| '\u{9}' <= c <= '\u{d}'
    ||| c == ' '
    ||| c == '\u{85}'
    ||| c == '\u{a0}'
    ||| c == '\u{1680}'
    ||| '\u{2000}' <= c <= '\u{200a}'
    ||| c == '\u{2028}'
    ||| c == '\u{2029}'
    ||| c == '\u{202f}'
    ||| c == '\u{205f}'
    ||| c == '\u{3000}'
}

/// `s` without its leading white space.
pub open spec fn trim_start(s: Seq<char>) -> Seq<char>
    decreases s.len(),
{
    if s.len() > 0 && is_white_space(s[0]) {
        trim_start(s.drop_first())
    } else {
        s
    }
}

/// `s` without its trailing white space.
pub open spec fn trim_end(s: Seq<char>) -> Seq<char>
    decreases s.len(),
{
    if s.len() > 0 && is_white_space(s.last()) {
        trim_end(s.drop_last())
    } else {
        s
    }
}

/// `s` without its leading and trailing white space.
pub open spec fn trim(s: Seq<char>) -> Seq<char> {
    trim_end(trim_start(s))
}

/// An ASCII decimal digit.
pub open spec fn is_digit(c: char) -> bool {
    '0' <= c <= '9'
}

/// The value of a digit.
pub open spec fn digit_value(c: char) -> nat {
    (c as int - '0' as int) as nat
}

/// The number that a sequence of digits writes in decimal.
pub open spec fn digits_value(s: Seq<char>) -> nat
    decreases s.len(),
{
    if s.len() == 0 {
        0
    } else {
        digits_value(s.drop_last()) * 10 + digit_value(s.last())
    }
}

/// The number that `s` writes as a `usize` reads it: an optional `+`, then one
/// digit or more, and no more than `usize::MAX`.
pub open spec fn parse_usize(s: Seq<char>) -> Option<nat> {
    let digits = unsigned_part(s);
    if digits.len() == 0 || !all_digits(digits) || digits_value(digits) > usize::MAX {
        None
    } else {
        Some(digits_value(digits))
    }
}

/// `s` without a leading `+`.
pub open spec fn unsigned_part(s: Seq<char>) -> Seq<char> {
    if s.len() > 0 && s[0] == '+' {
        s.drop_first()
    } else {
        s
    }
}

/// Every character is a digit.
pub open spec fn all_digits(s: Seq<char>) -> bool {
    forall|i: int| 0 <= i < s.len() ==> is_digit(#[trigger] s[i])
}

/// The 0-based index that an answer chooses among `count` options, numbered from 1:
/// the answer, trimmed, must read as a number from 1 to `count`.
pub open spec fn chosen_index(answer: Seq<char>, count: nat) -> Option<nat> {
    match parse_usize(trim(answer)) {
        Some(n) => if 1 <= n <= count {
            Some((n - 1) as nat)
        } else {
            None
        },
        None => None,
    }
}

fn white_space(c: char) -> (b: bool)
    ensures
        b == is_white_space(c),
{
    ('\u{9}' <= c && c <= '\u{d}') || c == ' ' || c == '\u{85}' || c == '\u{a0}' || c
        == '\u{1680}' || ('\u{2000}' <= c && c <= '\u{200a}') || c == '\u{2028}' || c
        == '\u{2029}' || c == '\u{202f}' || c == '\u{205f}' || c == '\u{3000}'
}

/// Leading white space can be skipped before trimming the start.
pub proof fn lemma_trim_start_skip(s: Seq<char>, k: int)
    requires
        0 <= k <= s.len(),
        forall|i: int| 0 <= i < k ==> is_white_space(#[trigger] s[i]),
    ensures
        trim_start(s) == trim_start(s.subrange(k, s.len() as int)),
    decreases k,
{
    if k > 0 {
        let t = s.drop_first();
        assert forall|i: int| 0 <= i < k - 1 implies is_white_space(#[trigger] t[i]) by {
            assert(t[i] == s[i + 1]);
        }
        lemma_trim_start_skip(t, k - 1);
        assert(t.subrange(k - 1, t.len() as int) =~= s.subrange(k, s.len() as int));
    } else {
        assert(s.subrange(0, s.len() as int) =~= s);
    }
}

/// Trailing white space can be cut before trimming the end.
pub proof fn lemma_trim_end_take(s: Seq<char>, k: int)
    requires
        0 <= k <= s.len(),
        forall|i: int| k <= i < s.len() ==> is_white_space(#[trigger] s[i]),
    ensures
        trim_end(s) == trim_end(s.take(k)),
    decreases s.len() - k,
{
    if k < s.len() {
        let t = s.drop_last();
        assert forall|i: int| k <= i < t.len() implies is_white_space(#[trigger] t[i]) by {
            assert(t[i] == s[i]);
        }
        lemma_trim_end_take(t, k);
        assert(t.take(k) =~= s.take(k));
    } else {
        assert(s.take(k) =~= s);
    }
}

proof fn lemma_digits_value_grows(s: Seq<char>, k: int)
    requires
        0 <= k <= s.len(),
    ensures
        digits_value(s.take(k)) <= digits_value(s),
    decreases s.len() - k,
{
    if k < s.len() {
        lemma_digits_value_grows(s.drop_last(), k);
        assert(s.drop_last().take(k) =~= s.take(k));
    } else {
        assert(s.take(k) =~= s);
    }
}

/// The 0-based index that `answer` chooses among `count` options numbered from 1,
/// as `chosen_index` defines it; `None` when the answer does not name one of them.
pub fn parse_selection(answer: &str, count: usize) -> (r: Option<usize>)
    ensures
        match chosen_index(answer@, count as nat) {
            Some(i) => r == Some(i as usize),
            None => r is None,
        },
{
    let ghost s = answer@;
    let n = answer.unicode_len();
    let mut cs: Vec<char> = Vec::new();
    let mut k: usize = 0;
    while k < n
        invariant
            k <= n,
            n == s.len(),
            s == answer@,
            cs@ == s.take(k as int),
        decreases n - k,
    {
        let c = answer.get_char(k);
        cs.push(c);
        assert(cs@ =~= s.take(k + 1));
        k = k + 1;
    }
    assert(cs@ =~= s);
    // Leading white space.
    let mut lo: usize = 0;
    while lo < n && white_space(cs[lo])
        invariant
            lo <= n,
            n == cs@.len(),
            forall|i: int| 0 <= i < lo ==> is_white_space(#[trigger] cs@[i]),
        decreases n - lo,
    {
        lo = lo + 1;
    }
    let ghost front = cs@.subrange(lo as int, n as int);
    proof {
        lemma_trim_start_skip(cs@, lo as int);
        if lo < n {
            assert(front[0] == cs@[lo as int]);
        }
        assert(trim_start(cs@) == front);
    }
    // Trailing white space.
    let mut hi: usize = n;
    while hi > lo && white_space(cs[hi - 1])
        invariant
            lo <= hi <= n,
            n == cs@.len(),
            forall|i: int| hi <= i < n ==> is_white_space(#[trigger] cs@[i]),
        decreases hi,
    {
        hi = hi - 1;
    }
    let ghost trimmed = cs@.subrange(lo as int, hi as int);
    proof {
        assert forall|i: int| hi - lo <= i < front.len() implies is_white_space(#[trigger] front[i]) by {
            assert(front[i] == cs@[lo + i]);
        }
        lemma_trim_end_take(front, hi - lo);
        assert(front.take(hi - lo) =~= trimmed);
        if hi > lo {
            assert(trimmed.last() == cs@[hi - 1]);
        }
        assert(trim(s) == trimmed);
    }
    // Optional sign, then digits.
    let mut start = lo;
    if start < hi && cs[start] == '+' {
        start = start + 1;
    }
    let ghost digits = cs@.subrange(start as int, hi as int);
    assert(digits =~= unsigned_part(trimmed));
    if start == hi {
        assert(parse_usize(trimmed) is None);
        return None;
    }
    let mut value: usize = 0;
    let mut i: usize = start;
    while i < hi
        invariant
            start <= i <= hi <= n,
            n == cs@.len(),
            digits == cs@.subrange(start as int, hi as int),
            trim(answer@) == trimmed,
            digits == unsigned_part(trimmed),
            digits.len() > 0,
            forall|j: int| start <= j < i ==> is_digit(#[trigger] cs@[j]),
            value == digits_value(digits.take(i - start)),
        decreases hi - i,
    {
        let c = cs[i];
        if !('0' <= c && c <= '9') {
            assert(!is_digit(digits[i - start]));
            assert(parse_usize(trimmed) is None);
            return None;
        }
        let d = (c as u32 - '0' as u32) as usize;
        assert(digits.take(i + 1 - start).drop_last() =~= digits.take(i - start));
        assert(digits.take(i + 1 - start).last() == c);
        let grown = value.checked_mul(10);
        match grown {
            None => {
                proof {
                    if all_digits(digits) {
                        lemma_digits_value_grows(digits, i + 1 - start);
                    }
                }
                return None;
            },
            Some(v) => {
                match v.checked_add(d) {
                    None => {
                        proof {
                            if all_digits(digits) {
                                lemma_digits_value_grows(digits, i + 1 - start);
                            }
                        }
                        return None;
                    },
                    Some(w) => {
                        value = w;
                    },
                }
            },
        }
        i = i + 1;
    }
    assert(digits.take(hi - start) =~= digits);
    assert forall|j: int| 0 <= j < digits.len() implies is_digit(#[trigger] digits[j]) by {
        assert(digits[j] == cs@[start + j]);
    }
    if 1 <= value && value <= count {
        Some(value - 1)
    } else {
        None
    }
}

} // verus!
