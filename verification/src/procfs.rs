//! Paths below `/proc`: which process a path belongs to.
use crate::netns::Pid;
use crate::netns_tracker::process_netns_path_spec;
use crate::text::{decimal_digits, digit_char};
use vstd::prelude::*;
use vstd::string::*;

verus! {

/// Why a path does not name something of a process below `/proc`.
#[derive(Debug, PartialEq)]
pub enum ParseProcfsError {
    /// The path is not absolute.
    NotAbsolute,
    /// The path does not start with `/proc/`.
    NonProc,
    /// The path does not contain a pid.
    NoPid,
    /// The path has this where the pid should be.
    NotAPid(String),
}

/// What `ParseProcfsError` holds, as mathematical values.
pub enum ParseProcfsErrorView {
    NotAbsolute,
    NonProc,
    NoPid,
    NotAPid(Seq<char>),
}

impl View for ParseProcfsError {
    type V = ParseProcfsErrorView;

    open spec fn view(&self) -> ParseProcfsErrorView {
        match self {
            ParseProcfsError::NotAbsolute => ParseProcfsErrorView::NotAbsolute,
            ParseProcfsError::NonProc => ParseProcfsErrorView::NonProc,
            ParseProcfsError::NoPid => ParseProcfsErrorView::NoPid,
            ParseProcfsError::NotAPid(text) => ParseProcfsErrorView::NotAPid(text@),
        }
    }
}

/// Whether `c` is a decimal digit.
pub open spec fn is_digit(c: char) -> bool {
    '0' <= c <= '9'
}

/// The number that a text of decimal digits reads as.
pub open spec fn digits_value(s: Seq<char>) -> nat
    decreases s.len(),
{
    if s.len() == 0 {
        0
    } else {
        10 * digits_value(s.drop_last()) + ((s.last() as u32) - ('0' as u32)) as nat
    }
}

/// Whether every character of `s` is a decimal digit.
pub open spec fn all_digits(s: Seq<char>) -> bool {
    forall|i: int| 0 <= i < s.len() ==> is_digit(#[trigger] s[i])
}

/// The digits of a number text: the text without the plus sign that may
/// stand before them.
pub open spec fn unsigned_part(s: Seq<char>) -> Seq<char> {
    if s.len() > 0 && s[0] == '+' {
        s.drop_first()
    } else {
        s
    }
}

/// The 64-bit number that `s` reads as: one or more decimal digits, after a
/// plus sign or not, whose value fits.
pub open spec fn parsed_u64(s: Seq<char>) -> Option<u64> {
    let digits = unsigned_part(s);
    if digits.len() > 0 && all_digits(digits) && digits_value(digits) <= u64::MAX {
        Some(digits_value(digits) as u64)
    } else {
        None
    }
}

/// A text of digits reads as no less than any of its beginnings.
proof fn lemma_digits_value_grows(s: Seq<char>, k: int)
    requires
        0 <= k <= s.len(),
        all_digits(s),
    ensures
        digits_value(s.take(k)) <= digits_value(s),
    decreases s.len() - k,
{
    if k < s.len() {
        let init = s.drop_last();
        assert forall|i: int| 0 <= i < init.len() implies is_digit(#[trigger] init[i]) by {
            assert(init[i] == s[i]);
        }
        assert(is_digit(s[s.len() - 1]));
        lemma_digits_value_grows(init, k);
        assert(init.take(k) =~= s.take(k));
    } else {
        assert(s.take(k) =~= s);
    }
}

/// The position at or after `i` at which the next component of the path
/// starts: separators and components that are a single dot are passed over.
/// It is the length of the path if no component follows.
pub open spec fn component_start(s: Seq<char>, i: int) -> int
    decreases s.len() - i,
{
    if i < 0 || i >= s.len() {
        s.len() as int
    } else if s[i] == '/' {
        component_start(s, i + 1)
    } else if s[i] == '.' && (i + 1 == s.len() || s[i + 1] == '/') {
        component_start(s, i + 1)
    } else {
        i
    }
}

/// The position at or after `i` at which the component that holds `i` ends:
/// that of the next separator, or the length of the path.
pub open spec fn component_end(s: Seq<char>, i: int) -> int
    decreases s.len() - i,
{
    if i < 0 || i >= s.len() || s[i] == '/' {
        i
    } else {
        component_end(s, i + 1)
    }
}

/// The pid that an absolute path below `/proc` starts with, after `/proc`.
///
/// The path is read by its components, as the system reads it: repeated
/// separators and components that are a single dot do not count. The first
/// component has to be `proc`, the second the pid, which may not be `..`.
pub open spec fn procfs_pid(path: Seq<char>) -> Result<u64, ParseProcfsErrorView> {
    let a = component_start(path, 0);
    let b = component_end(path, a);
    let c = component_start(path, b);
    let d = component_end(path, c);
    if path.len() == 0 || path[0] != '/' {
        Err(ParseProcfsErrorView::NotAbsolute)
    } else if path.subrange(a, b) != seq!['p', 'r', 'o', 'c'] {
        Err(ParseProcfsErrorView::NonProc)
    } else if c == path.len() || path.subrange(c, d) == seq!['.', '.'] {
        Err(ParseProcfsErrorView::NoPid)
    } else {
        match parsed_u64(path.subrange(c, d)) {
            Some(pid) => Ok(pid),
            None => Err(ParseProcfsErrorView::NotAPid(path.subrange(c, d))),
        }
    }
}

/// The characters of `s`.
fn chars_of(s: &str) -> (r: Vec<char>)
    ensures
        r@ == s@,
{
    let n = s.unicode_len();
    let mut out: Vec<char> = Vec::new();
    let mut i: usize = 0;
    while i < n
        invariant
            i <= n,
            n == s@.len(),
            out@ == s@.take(i as int),
        decreases n - i,
    {
        out.push(s.get_char(i));
        assert(out@ =~= s@.take(i + 1));
        i += 1;
    }
    assert(s@.take(n as int) =~= s@);
    out
}

/// The position at which the next component starts.
fn find_component_start(path: &Vec<char>, from: usize) -> (r: usize)
    requires
        from <= path@.len(),
    ensures
        r == component_start(path@, from as int),
        from <= r <= path@.len(),
{
    let mut i: usize = from;
    while i < path.len()
        invariant
            from <= i <= path@.len(),
            component_start(path@, i as int) == component_start(path@, from as int),
        decreases path@.len() - i,
    {
        if path[i] == '/' {
            i += 1;
        } else if path[i] == '.' && (i + 1 == path.len() || path[i + 1] == '/') {
            i += 1;
        } else {
            return i;
        }
    }
    i
}

/// The position at which the component that starts at `from` ends.
fn find_component_end(path: &Vec<char>, from: usize) -> (r: usize)
    requires
        from <= path@.len(),
    ensures
        r == component_end(path@, from as int),
        from <= r <= path@.len(),
{
    let mut i: usize = from;
    while i < path.len() && path[i] != '/'
        invariant
            from <= i <= path@.len(),
            component_end(path@, i as int) == component_end(path@, from as int),
        decreases path@.len() - i,
    {
        i += 1;
    }
    i
}

/// Reads the characters of `text` from `from` to `to` as a 64-bit number.
fn parse_u64(text: &Vec<char>, from: usize, to: usize) -> (r: Option<u64>)
    requires
        from <= to <= text@.len(),
    ensures
        r == parsed_u64(text@.subrange(from as int, to as int)),
{
    let ghost whole = text@.subrange(from as int, to as int);
    let start: usize = if from < to && text[from] == '+' {
        from + 1
    } else {
        from
    };
    let ghost digits = unsigned_part(whole);
    assert(digits =~= text@.subrange(start as int, to as int));
    if start == to {
        return None;
    }
    let mut value: u64 = 0;
    let mut i: usize = start;
    assert(digits.take(0) =~= Seq::empty());
    while i < to
        invariant
            from <= start <= i <= to <= text@.len(),
            digits == text@.subrange(start as int, to as int),
            digits == unsigned_part(text@.subrange(from as int, to as int)),
            digits.len() > 0,
            all_digits(digits.take(i - start)),
            value == digits_value(digits.take(i - start)),
        decreases to - i,
    {
        let c = text[i];
        proof {
            assert(digits.take(i - start + 1).drop_last() =~= digits.take(i - start));
            assert(digits.take(i - start + 1).last() == c);
            assert(digits[i - start] == c);
        }
        if !('0' <= c && c <= '9') {
            assert(!all_digits(digits));
            return None;
        }
        let d: u64 = (c as u32 - '0' as u32) as u64;
        if value > (u64::MAX - d) / 10 {
            proof {
                if all_digits(digits) {
                    lemma_digits_value_grows(digits, i - start + 1);
                }
            }
            return None;
        }
        value = value * 10 + d;
        proof {
            let next = digits.take(i - start + 1);
            assert forall|j: int| 0 <= j < next.len() implies is_digit(#[trigger] next[j]) by {
                if j < i - start {
                    assert(digits.take(i - start)[j] == next[j]);
                }
            }
        }
        i += 1;
    }
    assert(digits.take(to - start) =~= digits);
    Some(value)
}

/// The pid that an absolute path below `/proc` starts with, after `/proc`:
/// `/proc/<pid>` and whatever follows.
pub fn parse_procfs_path_start(path: &str) -> (r: Result<u64, ParseProcfsError>)
    ensures
        match r {
            Ok(pid) => procfs_pid(path@) == Ok::<u64, ParseProcfsErrorView>(pid),
            Err(e) => procfs_pid(path@) == Err::<u64, ParseProcfsErrorView>(e@),
        },
{
    let chars = chars_of(path);
    if chars.len() == 0 || chars[0] != '/' {
        return Err(ParseProcfsError::NotAbsolute);
    }
    let a = find_component_start(&chars, 0);
    let b = find_component_end(&chars, a);
    let is_proc = b - a == 4 && chars[a] == 'p' && chars[a + 1] == 'r' && chars[a + 2] == 'o'
        && chars[a + 3] == 'c';
    proof {
        let first = chars@.subrange(a as int, b as int);
        if is_proc {
            assert(first =~= seq!['p', 'r', 'o', 'c']);
        } else if first == seq!['p', 'r', 'o', 'c'] {
            assert(first.len() == 4);
            assert(first[0] == 'p' && first[1] == 'r' && first[2] == 'o' && first[3] == 'c');
        }
    }
    if !is_proc {
        return Err(ParseProcfsError::NonProc);
    }
    let c = find_component_start(&chars, b);
    let d = find_component_end(&chars, c);
    let is_parent = d - c == 2 && chars[c] == '.' && chars[c + 1] == '.';
    proof {
        let second = chars@.subrange(c as int, d as int);
        if is_parent {
            assert(second =~= seq!['.', '.']);
        } else if second == seq!['.', '.'] {
            assert(second.len() == 2);
            assert(second[0] == '.' && second[1] == '.');
        }
    }
    if c == chars.len() || is_parent {
        return Err(ParseProcfsError::NoPid);
    }
    match parse_u64(&chars, c, d) {
        Some(pid) => Ok(pid),
        None => Err(ParseProcfsError::NotAPid(String::from_str(path.substring_char(c, d)))),
    }
}

/// Whether `path` names something of a process below `/proc`.
pub open spec fn names_process(path: Seq<char>) -> bool {
    procfs_pid(path) is Ok
}

/// The decimal rendering of a number is a text of digits that reads as the
/// number.
pub proof fn lemma_decimal_digits(n: nat)
    ensures
        decimal_digits(n).len() >= 1,
        all_digits(decimal_digits(n)),
        digits_value(decimal_digits(n)) == n,
    decreases n,
{
    let d = decimal_digits(n);
    if n < 10 {
        assert(d =~= seq![digit_char(n)]);
        assert(d.drop_last() =~= Seq::<char>::empty());
        assert(digits_value(d.drop_last()) == 0);
        assert(d.last() == digit_char(n));
    } else {
        lemma_decimal_digits(n / 10);
        let init = decimal_digits(n / 10);
        assert(d.drop_last() =~= init);
        assert(d.last() == digit_char(n % 10));
        assert forall|i: int| 0 <= i < d.len() implies is_digit(#[trigger] d[i]) by {
            if i < init.len() {
                assert(d[i] == init[i]);
            }
        }
    }
}

/// Within a component, the end of the component is the same from every
/// position.
proof fn lemma_component_end(s: Seq<char>, from: int, to: int)
    requires
        0 <= from <= to <= s.len(),
        forall|i: int| from <= i < to ==> s[i] != '/',
        to == s.len() || s[to] == '/',
    ensures
        component_end(s, from) == to,
    decreases to - from,
{
    if from < to {
        lemma_component_end(s, from + 1, to);
    }
}

/// The handle of a process names the process: the path `/proc/<pid>/ns/net`
/// reads as a path of process `pid`.
pub proof fn lemma_handle_names_its_process(pid: Pid)
    ensures
        procfs_pid(process_netns_path_spec(pid)) == Ok::<u64, ParseProcfsErrorView>(pid as u64),
{
    reveal_strlit("/proc/");
    reveal_strlit("/ns/net");
    let digits = decimal_digits(pid as nat);
    lemma_decimal_digits(pid as nat);
    let path = process_netns_path_spec(pid);
    let n = digits.len() as int;
    assert(path.len() == 6 + n + 7);
    assert(path[0] == '/' && path[1] == 'p' && path[2] == 'r' && path[3] == 'o' && path[4] == 'c'
        && path[5] == '/');
    assert forall|i: int| 0 <= i < n implies path[6 + i] == digits[i] by {}
    assert(path[6 + n] == '/');
    // The first component is `proc`.
    assert(component_start(path, 1) == 1);
    assert(component_start(path, 0) == 1);
    lemma_component_end(path, 1, 5);
    assert(path.subrange(1, 5) =~= seq!['p', 'r', 'o', 'c']);
    // The second component is the digits of the pid.
    assert(is_digit(digits[0]));
    assert(component_start(path, 6) == 6);
    assert(component_start(path, 5) == 6);
    assert forall|i: int| 6 <= i < 6 + n implies path[i] != '/' by {
        assert(is_digit(digits[i - 6]));
    }
    lemma_component_end(path, 6, 6 + n);
    assert(path.subrange(6, 6 + n) =~= digits);
    assert(digits != seq!['.', '.']) by {
        if digits == seq!['.', '.'] {
            assert(digits[0] == '.');
        }
    }
    assert(unsigned_part(digits) == digits);
}

} // verus!
