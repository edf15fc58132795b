//! Pointers: slash-delimited paths that locate a node within a document.
//!
//! A pointer is the empty string for the root, or a sequence of segments each
//! introduced by `/`.  A segment names an object key, or an array index
//! written in base 10 without leading zeroes.

use vstd::prelude::*;
use vstd::string::StrSliceExecFns;
use vstd::string::StringExecFns;

verus! {

/// The rendered form of a segment sequence: empty for the root, otherwise
/// `/` before each segment.
pub open spec fn render_ptr(segs: Seq<Seq<char>>) -> Seq<char>
    decreases segs.len(),
{
    if segs.len() == 0 {
        Seq::empty()
    } else {
        render_ptr(segs.drop_last()) + seq!['/'] + segs.last()
    }
}

/// The segment views of a vector of segment strings.
pub open spec fn strs_model(s: Seq<String>) -> Seq<Seq<char>> {
    Seq::new(s.len(), |i: int| s[i]@)
}

/// The position of the first `/` in `s`, or `s.len()` if there is none.
pub open spec fn first_slash(s: Seq<char>) -> int
    decreases s.len(),
{
    if s.len() == 0 {
        0
    } else if s[0] == '/' {
        0
    } else {
        1 + first_slash(s.subrange(1, s.len() as int))
    }
}

/// Splitting a pointer body (everything after the leading `/`) at each `/`.
pub open spec fn split_segs(s: Seq<char>) -> Seq<Seq<char>>
    decreases s.len(),
{
    let i = first_slash(s);
    if i < 0 || i >= s.len() {
        seq![s]
    } else {
        seq![s.subrange(0, i)] + split_segs(s.subrange(i + 1, s.len() as int))
    }
}

/// Parsing a pointer string: the empty string is the root; any other pointer
/// must begin with `/` and is split at each further `/`.
pub open spec fn parse_ptr(s: Seq<char>) -> Option<Seq<Seq<char>>> {
    if s.len() == 0 {
        Some(Seq::empty())
    } else if s[0] != '/' {
        None
    } else {
        Some(split_segs(s.subrange(1, s.len() as int)))
    }
}

/// If `s` has no `/` before `k`, and `k` is either the end or a `/`, then `k`
/// is the first slash.
pub proof fn lemma_first_slash_at(s: Seq<char>, k: int)
    requires
        0 <= k <= s.len(),
        forall|j: int| 0 <= j < k ==> s[j] != '/',
        k < s.len() ==> s[k] == '/',
    ensures
        first_slash(s) == k,
    decreases k,
{
    if k == 0 {
    } else {
        let t = s.subrange(1, s.len() as int);
        assert forall|j: int| 0 <= j < k - 1 implies t[j] != '/' by {
            assert(t[j] == s[j + 1]);
        }
        assert(k - 1 < t.len() ==> t[k - 1] == s[k]);
        lemma_first_slash_at(t, k - 1);
    }
}

/// Parse a pointer string into its segments; `None` when the pointer is
/// neither empty nor introduced by `/`.
pub fn parse_pointer(path: &str) -> (r: Option<Vec<String>>)
    ensures
        match r {
            Some(v) => parse_ptr(path@) == Some(strs_model(v@)),
            None => parse_ptr(path@) is None,
        },
{
    let n = path.unicode_len();
    if n == 0 {
        proof {
            assert(strs_model(Seq::<String>::empty()) =~= Seq::<Seq<char>>::empty());
        }
        return Some(Vec::new());
    }
    if path.get_char(0) != '/' {
        return None;
    }
    let segs = split_exec(path, 1);
    proof {
        assert(path@.subrange(1, path@.len() as int) =~= path@.subrange(1int, path@.len() as int));
    }
    Some(segs)
}

/// Split `path` from character `start` at each `/`, yielding the segments.
#[verifier::loop_isolation(false)]
fn split_exec(path: &str, start: usize) -> (r: Vec<String>)
    requires
        start <= path@.len(),
    ensures
        strs_model(r@) == split_segs(path@.subrange(start as int, path@.len() as int)),
    decreases path@.len() - start,
{
    let n = path.unicode_len();
    let ghost body = path@.subrange(start as int, path@.len() as int);
    let mut i = start;
    while i < n && path.get_char(i) != '/'
        invariant
            start <= i <= n,
            forall|j: int| start <= j < i ==> path@[j] != '/',
        decreases n - i,
    {
        i += 1;
    }
    proof {
        assert forall|j: int| 0 <= j < i - start implies body[j] != '/' by {
            assert(body[j] == path@[j + start]);
        }
        assert((i - start) < body.len() ==> body[i - start] == path@[i as int]);
        lemma_first_slash_at(body, i - start);
    }
    let seg = path.substring_char(start, i).to_owned();
    if i == n {
        let mut out: Vec<String> = Vec::new();
        out.push(seg);
        proof {
            assert(seg@ =~= body);
            assert(strs_model(out@) =~= seq![body]);
        }
        out
    } else {
        let mut rest = split_exec(path, i + 1);
        rest.insert(0, seg);
        proof {
            assert(seg@ =~= body.subrange(0, i - start));
            assert(path@.subrange(i + 1, path@.len() as int) =~= body.subrange(
                i - start + 1,
                body.len() as int,
            ));
            assert(strs_model(rest@) =~= seq![body.subrange(0, i - start)] + split_segs(
                body.subrange(i - start + 1, body.len() as int),
            ));
        }
        rest
    }
}

/// Render segment strings as a pointer: `/` before each segment.
#[verifier::loop_isolation(false)]
pub fn render_pointer(segs: &Vec<String>) -> (r: String)
    ensures
        r@ == render_ptr(strs_model(segs@)),
{
    let mut out = String::new();
    proof {
        reveal_strlit("/");
    }
    for i in 0..segs.len()
        invariant
            out@ == render_ptr(strs_model(segs@).take(i as int)),
        decreases segs@.len() - i,
    {
        let ghost before = out@;
        out.append("/");
        out.append(segs[i].as_str());
        proof {
            let pre = strs_model(segs@).take(i as int);
            let post = strs_model(segs@).take(i + 1);
            assert(post.drop_last() =~= pre);
            assert(post.last() == segs@[i as int]@);
            assert(out@ =~= render_ptr(pre) + seq!['/'] + segs@[i as int]@);
        }
    }
    proof {
        assert(strs_model(segs@).take(segs@.len() as int) =~= strs_model(segs@));
    }
    out
}

/// Is `c` a decimal digit?
pub open spec fn is_digit(c: char) -> bool {
    48 <= c as u32 <= 57
}

pub open spec fn digit_val(c: char) -> int {
    c as u32 - 48
}

/// The value of a digit string, most significant digit first.
pub open spec fn digits_val(s: Seq<char>) -> int
    decreases s.len(),
{
    if s.len() == 0 {
        0
    } else {
        digits_val(s.drop_last()) * 10 + digit_val(s.last())
    }
}

/// Is `s` a well-formed array index: digits only, no leading zero?
pub open spec fn is_index_seg(s: Seq<char>) -> bool {
    s.len() > 0 && (forall|i: int| 0 <= i < s.len() ==> is_digit(#[trigger] s[i])) && (s.len() == 1
        || s[0] != '0')
}

/// The array index named by segment `s`, if any.
pub open spec fn seg_index(s: Seq<char>) -> Option<int> {
    if is_index_seg(s) {
        Some(digits_val(s))
    } else {
        None
    }
}

pub proof fn lemma_digits_val_nonneg(s: Seq<char>)
    requires
        forall|i: int| 0 <= i < s.len() ==> is_digit(#[trigger] s[i]),
    ensures
        digits_val(s) >= 0,
    decreases s.len(),
{
    if s.len() > 0 {
        lemma_digits_val_nonneg(s.drop_last());
    }
}

/// A longer digit prefix never names a smaller value.
pub proof fn lemma_digits_val_prefix(s: Seq<char>, k: int)
    requires
        0 <= k <= s.len(),
        forall|i: int| 0 <= i < s.len() ==> is_digit(#[trigger] s[i]),
    ensures
        digits_val(s) >= digits_val(s.take(k)),
    decreases s.len() - k,
{
    if k < s.len() {
        lemma_digits_val_prefix(s, k + 1);
        let t = s.take(k + 1);
        assert(t.drop_last() =~= s.take(k));
        lemma_digits_val_nonneg(s.take(k));
        assert(digits_val(t) == digits_val(s.take(k)) * 10 + digit_val(t.last()));
    } else {
        assert(s.take(k) =~= s);
    }
}

/// Parse an array-index segment.  `None` when the segment is not a
/// well-formed index, or names an index beyond `usize`.
#[verifier::loop_isolation(false)]
pub fn parse_index(seg: &str) -> (r: Option<usize>)
    ensures
        match r {
            Some(u) => seg_index(seg@) == Some(u as int),
            None => seg_index(seg@) is None || digits_val(seg@) > usize::MAX as int,
        },
{
    let n = seg.unicode_len();
    if n == 0 {
        return None;
    }
    if n > 1 && seg.get_char(0) == '0' {
        return None;
    }
    let mut acc: u128 = 0;
    let mut i: usize = 0;
    while i < n
        invariant
            0 <= i <= n,
            n == seg@.len(),
            acc <= usize::MAX as u128,
            acc as int == digits_val(seg@.take(i as int)),
            forall|j: int| 0 <= j < i ==> is_digit(#[trigger] seg@[j]),
        decreases n - i,
    {
        let c = seg.get_char(i);
        let d = c as u32;
        if d < 48 || d > 57 {
            return None;
        }
        acc = acc * 10 + ((d - 48) as u128);
        proof {
            let t = seg@.take(i + 1);
            assert(t.drop_last() =~= seg@.take(i as int));
            assert(t.last() == seg@[i as int]);
        }
        i += 1;
        if acc > (usize::MAX as u128) {
            proof {
                assert(seg@.take(i as int).len() == i);
                if forall|j: int| 0 <= j < seg@.len() ==> is_digit(#[trigger] seg@[j]) {
                    lemma_digits_val_prefix(seg@, i as int);
                    assert(seg@.take(seg@.len() as int) =~= seg@);
                }
            }
            return None;
        }
    }
    proof {
        assert(seg@.take(n as int) =~= seg@);
        assert(is_index_seg(seg@));
    }
    Some(acc as usize)
}

/// The decimal rendering of `n`, most significant digit first.
pub open spec fn dec_of(n: int) -> Seq<char>
    decreases n,
{
    if n < 0 {
        Seq::empty()
    } else if n < 10 {
        seq![digit_char(n)]
    } else {
        dec_of(n / 10).push(digit_char(n % 10))
    }
}

pub open spec fn digit_char(d: int) -> char {
    if d == 0 {
        '0'
    } else if d == 1 {
        '1'
    } else if d == 2 {
        '2'
    } else if d == 3 {
        '3'
    } else if d == 4 {
        '4'
    } else if d == 5 {
        '5'
    } else if d == 6 {
        '6'
    } else if d == 7 {
        '7'
    } else if d == 8 {
        '8'
    } else {
        '9'
    }
}

/// The one-character string for digit `d`.
fn digit_str(d: usize) -> (r: &'static str)
    requires
        d < 10,
    ensures
        r@ == seq![digit_char(d as int)],
{
    proof {
        reveal_strlit("0");
        reveal_strlit("1");
        reveal_strlit("2");
        reveal_strlit("3");
        reveal_strlit("4");
        reveal_strlit("5");
        reveal_strlit("6");
        reveal_strlit("7");
        reveal_strlit("8");
        reveal_strlit("9");
    }
    let r = match d {
        0 => "0",
        1 => "1",
        2 => "2",
        3 => "3",
        4 => "4",
        5 => "5",
        6 => "6",
        7 => "7",
        8 => "8",
        _ => "9",
    };
    proof {
        assert(r@ =~= seq![digit_char(d as int)]);
    }
    r
}

/// Render `n` in decimal, most significant digit first.
pub fn render_index(n: usize) -> (r: String)
    ensures
        r@ == dec_of(n as int),
    decreases n,
{
    if n < 10 {
        let mut out = String::new();
        out.append(digit_str(n));
        proof {
            assert(out@ =~= seq![digit_char(n as int)]);
        }
        out
    } else {
        let mut out = render_index(n / 10);
        out.append(digit_str(n % 10));
        proof {
            assert(out@ =~= dec_of((n / 10) as int).push(digit_char((n % 10) as int)));
        }
        out
    }
}

} // verus!
