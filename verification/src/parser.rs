//! KTIR MLIR text parser: module / `func.func` extraction by brace matching,
//! the grid attribute and function arguments, the multi-line operation
//! tokenizer, and the structural parse of one operation (result, op type,
//! operands, result type, the `arith.constant` value and the infix index
//! arithmetic shorthand). Nested regions and dialect-specific affine
//! attributes are not parsed: such ops keep their op type, operands and
//! result type only.

use vstd::prelude::*;
use crate::ir::{Attr, IRFunction, IRModule, Operation, Scalar, Value};
use crate::env::FloatArith;
use crate::scan::{
    is_ws, is_digit, is_alnum, matches_at, contains_seq, trimmed, all_digits, ws, digit, alnum,
    find_str, rfind_str, find_char, slice_chars, trim, starts_with, ends_with, contains, parse_u64,
    parse_i64, int_literal_value, digits_value, char_pos, str_pos, rstr_pos,
};
use crate::text::{chars_to_string, str_to_chars};

verus! {

// ---------------------------------------------------------------------------
// comments
// ---------------------------------------------------------------------------

/// `s` with every `// ...` comment removed up to (not including) its line
/// break; `in_comment` says whether `s` starts inside a comment.
pub open spec fn strip_spec(s: Seq<char>, in_comment: bool) -> Seq<char>
    decreases s.len(),
{
    if s.len() == 0 {
        Seq::empty()
    } else if in_comment {
        if s[0] == '\n' {
            seq!['\n'] + strip_spec(s.drop_first(), false)
        } else {
            strip_spec(s.drop_first(), true)
        }
    } else if s[0] == '/' && s.len() > 1 && s[1] == '/' {
        strip_spec(s.drop_first(), true)
    } else {
        seq![s[0]] + strip_spec(s.drop_first(), false)
    }
}

/// Remove `// ...` line comments.
pub fn strip_comments(text: &Vec<char>) -> (r: Vec<char>)
    ensures
        r@ == strip_spec(text@, false),
{
    let mut out: Vec<char> = Vec::new();
    let mut in_comment = false;
    let mut i: usize = 0;
    assert(text@.subrange(0, text@.len() as int) =~= text@);
    assert(out@ + strip_spec(text@, false) =~= strip_spec(text@, false));
    while i < text.len()
        invariant
            0 <= i <= text@.len(),
            out@ + strip_spec(text@.subrange(i as int, text@.len() as int), in_comment) == strip_spec(
                text@,
                false,
            ),
        decreases text@.len() - i,
    {
        let ghost rest = text@.subrange(i as int, text@.len() as int);
        assert(rest.drop_first() =~= text@.subrange(i + 1, text@.len() as int));
        let c = text[i];
        if in_comment {
            if c == '\n' {
                out.push(c);
                in_comment = false;
                assert(out@ + strip_spec(rest.drop_first(), false) =~= (out@.drop_last() + (seq!['\n']
                    + strip_spec(rest.drop_first(), false))));
            }
        } else if c == '/' && i + 1 < text.len() && text[i + 1] == '/' {
            in_comment = true;
        } else {
            out.push(c);
            assert(out@ + strip_spec(rest.drop_first(), false) =~= (out@.drop_last() + (seq![c]
                + strip_spec(rest.drop_first(), false))));
        }
        i = i + 1;
    }
    assert(text@.subrange(i as int, text@.len() as int) =~= Seq::<char>::empty());
    assert(out@ =~= out@ + Seq::<char>::empty());
    out
}

// ---------------------------------------------------------------------------
// bracket matching
// ---------------------------------------------------------------------------

/// Net nesting of `open` / `close` over `s[a..i]`.
pub open spec fn depth(s: Seq<char>, a: int, i: int, open: char, close: char) -> int
    decreases i - a,
{
    if i <= a {
        0
    } else {
        depth(s, a, i - 1, open, close) + (if s[i - 1] == open {
            1int
        } else if s[i - 1] == close {
            -1int
        } else {
            0int
        })
    }
}

/// The first position `j >= from` (scanning from opener `a`) where the
/// nesting count of `s[a..=j]` drops to zero.
pub open spec fn close_from(s: Seq<char>, a: int, j: int, open: char, close: char) -> Option<int>
    decreases s.len() - j,
{
    if j < a || j >= s.len() {
        None
    } else if depth(s, a, j + 1, open, close) <= 0 {
        Some(j)
    } else {
        close_from(s, a, j + 1, open, close)
    }
}

/// The bracket closing the opener at `a`.
pub open spec fn match_spec(s: Seq<char>, a: int, open: char, close: char) -> Option<int> {
    close_from(s, a, a, open, close)
}

proof fn lemma_close_from(s: Seq<char>, a: int, j: int, k: int, open: char, close: char)
    requires
        a <= j <= k <= s.len(),
        forall|m: int| j <= m < k ==> #[trigger] depth(s, a, m + 1, open, close) > 0,
        k < s.len() ==> depth(s, a, k + 1, open, close) <= 0,
    ensures
        close_from(s, a, j, open, close) == (if k < s.len() {
            Some(k)
        } else {
            None
        }),
    decreases k - j,
{
    if j < k {
        lemma_close_from(s, a, j + 1, k, open, close);
    }
}

/// A match lies at or after the search start and within `s`.
pub proof fn lemma_close_range(s: Seq<char>, a: int, j: int, open: char, close: char)
    ensures
        close_from(s, a, j, open, close) matches Some(k) ==> j <= k < s.len(),
    decreases s.len() - j,
{
    if a <= j < s.len() && depth(s, a, j + 1, open, close) > 0 {
        lemma_close_range(s, a, j + 1, open, close);
    }
}

/// Index of the bracket closing the opener at `open_idx`, honoring nesting.
pub fn matching(text: &Vec<char>, open_idx: usize, open: char, close: char) -> (r: Option<usize>)
    requires
        open_idx < text@.len(),
        text@[open_idx as int] == open,
        open != close,
    ensures
        r matches Some(i) ==> open_idx < i < text@.len() && text@[i as int] == close && depth(
            text@,
            open_idx as int,
            i + 1,
            open,
            close,
        ) == 0 && forall|j: int|
            open_idx <= j < i ==> #[trigger] depth(text@, open_idx as int, j + 1, open, close) > 0,
        r is None ==> forall|j: int|
            open_idx <= j < text@.len() ==> #[trigger] depth(text@, open_idx as int, j + 1, open, close)
                > 0,
        r matches Some(i) ==> match_spec(text@, open_idx as int, open, close) == Some(i as int),
        r is None ==> match_spec(text@, open_idx as int, open, close) is None,
{
    let r = matching_scan(text, open_idx, open, close);
    proof {
        match r {
            Some(i) => {
                lemma_close_from(text@, open_idx as int, open_idx as int, i as int, open, close);
            },
            None => {
                lemma_close_from(text@, open_idx as int, open_idx as int, text@.len() as int, open, close);
            },
        }
    }
    r
}

fn matching_scan(text: &Vec<char>, open_idx: usize, open: char, close: char) -> (r: Option<usize>)
    requires
        open_idx < text@.len(),
        text@[open_idx as int] == open,
        open != close,
    ensures
        r matches Some(i) ==> open_idx < i < text@.len() && text@[i as int] == close && depth(
            text@,
            open_idx as int,
            i + 1,
            open,
            close,
        ) == 0 && forall|j: int|
            open_idx <= j < i ==> #[trigger] depth(text@, open_idx as int, j + 1, open, close) > 0,
        r is None ==> forall|j: int|
            open_idx <= j < text@.len() ==> #[trigger] depth(text@, open_idx as int, j + 1, open, close)
                > 0,
{
    let mut d: usize = 0;
    let mut i: usize = open_idx;
    while i < text.len()
        invariant
            open_idx <= i <= text@.len(),
            text@[open_idx as int] == open,
            open != close,
            d as int == depth(text@, open_idx as int, i as int, open, close),
            i > open_idx ==> d > 0,
            d <= i - open_idx,
            forall|j: int|
                open_idx <= j < i ==> #[trigger] depth(text@, open_idx as int, j + 1, open, close) > 0,
        decreases text@.len() - i,
    {
        let c = text[i];
        if c == open {
            d = d + 1;
        } else if c == close {
            if d == 1 {
                return Some(i);
            }
            d = d - 1;
        }
        i = i + 1;
    }
    None
}

/// Scanning from `pos`, skipping each top-level `{...}` block: the last one
/// seen before an unmatched `}` or the end of `s`; `None` when a block is
/// unterminated.
pub open spec fn ltb_from(s: Seq<char>, pos: int, last: Option<(int, int)>) -> Option<(int, int)>
    decreases s.len() - pos,
{
    if pos < 0 || pos >= s.len() {
        last
    } else if s[pos] == '{' {
        match match_spec(s, pos, '{', '}') {
            Some(c) => if pos < c < s.len() {
                ltb_from(s, c + 1, Some((pos, c)))
            } else {
                None
            },
            None => None,
        }
    } else if s[pos] == '}' {
        last
    } else {
        ltb_from(s, pos + 1, last)
    }
}

/// The last top-level `{...}` block starting at or after `start`, before an
/// unmatched `}` or the end of the text; `None` if there is none or a block is
/// unterminated.
pub fn last_top_level_block(text: &Vec<char>, start: usize) -> (r: Option<(usize, usize)>)
    ensures
        r matches Some((o, c)) ==> start <= o < c < text@.len() && text@[o as int] == '{'
            && text@[c as int] == '}' && depth(text@, o as int, c + 1, '{', '}') == 0,
        r matches Some((o, c)) ==> ltb_from(text@, start as int, None) == Some((o as int, c as int)),
        r is None ==> ltb_from(text@, start as int, None) is None,
{
    let mut pos: usize = start;
    let mut last: Option<(usize, usize)> = None;
    while pos < text.len()
        invariant
            start <= pos,
            last matches Some((o, c)) ==> start <= o < c < text@.len() && text@[o as int] == '{'
                && text@[c as int] == '}' && depth(text@, o as int, c + 1, '{', '}') == 0,
            ltb_from(text@, start as int, None) == ltb_from(
                text@,
                pos as int,
                match last {
                    Some((o, c)) => Some((o as int, c as int)),
                    None => None,
                },
            ),
        ensures
            last matches Some((o, c)) ==> start <= o < c < text@.len() && text@[o as int] == '{'
                && text@[c as int] == '}' && depth(text@, o as int, c + 1, '{', '}') == 0,
            ltb_from(text@, start as int, None) == (match last {
                Some((o, c)) => Some((o as int, c as int)),
                None => None,
            }),
        decreases text@.len() - pos,
    {
        let ch = text[pos];
        if ch == '{' {
            match matching(text, pos, '{', '}') {
                Some(close) => {
                    last = Some((pos, close));
                    pos = close + 1;
                },
                None => {
                    return None;
                },
            }
        } else if ch == '}' {
            break;
        } else {
            pos = pos + 1;
        }
    }
    last
}

/// Net `{` minus `}` count of `text`.
pub fn brace_balance(text: &Vec<char>) -> (b: i128)
    ensures
        b == depth(text@, 0, text@.len() as int, '{', '}'),
{
    let mut b: i128 = 0;
    let mut i: usize = 0;
    while i < text.len()
        invariant
            0 <= i <= text@.len(),
            b == depth(text@, 0, i as int, '{', '}'),
            -(i as int) <= b <= i,
        decreases text@.len() - i,
    {
        if text[i] == '{' {
            b = b + 1;
        } else if text[i] == '}' {
            b = b - 1;
        }
        i = i + 1;
    }
    b
}

// ---------------------------------------------------------------------------
// splitting
// ---------------------------------------------------------------------------

/// `s` split at every `c` (always at least one piece).
pub open spec fn split_on(s: Seq<char>, c: char) -> Seq<Seq<char>>
    decreases s.len(),
{
    if s.len() == 0 {
        seq![Seq::<char>::empty()]
    } else {
        let p = split_on(s.drop_last(), c);
        if s.last() == c {
            p.push(Seq::<char>::empty())
        } else {
            p.update(p.len() - 1, p.last().push(s.last()))
        }
    }
}

proof fn lemma_split_nonempty(s: Seq<char>, c: char)
    ensures
        split_on(s, c).len() >= 1,
    decreases s.len(),
{
    if s.len() > 0 {
        lemma_split_nonempty(s.drop_last(), c);
    }
}

proof fn lemma_split_no_sep(s: Seq<char>, c: char, i: int)
    requires
        0 <= i < split_on(s, c).len(),
    ensures
        !split_on(s, c)[i].contains(c),
    decreases s.len(),
{
    if s.len() > 0 {
        let p = split_on(s.drop_last(), c);
        lemma_split_nonempty(s.drop_last(), c);
        if s.last() == c {
            if i < p.len() {
                lemma_split_no_sep(s.drop_last(), c, i);
            }
        } else {
            if i < p.len() - 1 {
                lemma_split_no_sep(s.drop_last(), c, i);
            } else {
                lemma_split_no_sep(s.drop_last(), c, p.len() - 1);
                let q = p.last().push(s.last());
                assert(!q.contains(c)) by {
                    if q.contains(c) {
                        let k = choose|k: int| 0 <= k < q.len() && q[k] == c;
                        if k < p.last().len() {
                            assert(p.last()[k] == c);
                        }
                    }
                }
            }
        }
    }
}

/// See [`split_on`].
pub fn split_char(s: &Vec<char>, c: char) -> (r: Vec<Vec<char>>)
    ensures
        r@.len() == split_on(s@, c).len(),
        forall|i: int| 0 <= i < r@.len() ==> #[trigger] r@[i]@ == split_on(s@, c)[i],
{
    let mut out: Vec<Vec<char>> = Vec::new();
    let mut cur: Vec<char> = Vec::new();
    let mut i: usize = 0;
    while i < s.len()
        invariant
            0 <= i <= s@.len(),
            out@.len() + 1 == split_on(s@.subrange(0, i as int), c).len(),
            forall|k: int| 0 <= k < out@.len() ==> #[trigger] out@[k]@ == split_on(
                s@.subrange(0, i as int),
                c,
            )[k],
            cur@ == split_on(s@.subrange(0, i as int), c).last(),
        decreases s@.len() - i,
    {
        proof {
            lemma_split_nonempty(s@.subrange(0, i as int), c);
            assert(s@.subrange(0, i + 1).drop_last() =~= s@.subrange(0, i as int));
        }
        if s[i] == c {
            let done = cur;
            out.push(done);
            cur = Vec::new();
        } else {
            cur.push(s[i]);
        }
        i = i + 1;
    }
    assert(s@.subrange(0, s@.len() as int) =~= s@);
    out.push(cur);
    out
}

/// The first whitespace-delimited token of `s`, if any.
pub open spec fn first_token(s: Seq<char>) -> Option<Seq<char>> {
    let t = trimmed(s);
    if t.len() == 0 {
        None
    } else {
        Some(t.subrange(0, token_end(t, 0)))
    }
}

/// End of the run of non-whitespace characters of `s` starting at `i`.
pub open spec fn token_end(s: Seq<char>, i: int) -> int
    decreases s.len() - i,
{
    if i < 0 || i >= s.len() || is_ws(s[i]) {
        if i < 0 {
            0
        } else if i > s.len() {
            s.len() as int
        } else {
            i
        }
    } else {
        token_end(s, i + 1)
    }
}

proof fn lemma_token_end(s: Seq<char>, i: int)
    requires
        0 <= i <= s.len(),
    ensures
        i <= token_end(s, i) <= s.len(),
        forall|j: int| i <= j < token_end(s, i) ==> !is_ws(s[j]),
        token_end(s, i) < s.len() ==> is_ws(s[token_end(s, i)]),
    decreases s.len() - i,
{
    if i < s.len() && !is_ws(s[i]) {
        lemma_token_end(s, i + 1);
    }
}

/// See [`first_token`].
pub fn first_token_exec(s: &Vec<char>) -> (r: Option<Vec<char>>)
    ensures
        r matches Some(t) ==> first_token(s@) == Some(t@),
        r is None ==> first_token(s@) is None,
{
    let t = trim(s);
    if t.len() == 0 {
        return None;
    }
    let mut j: usize = 0;
    while j < t.len() && !ws(t[j])
        invariant
            0 <= j <= t@.len(),
            forall|k: int| 0 <= k < j ==> !is_ws(t@[k]),
            token_end(t@, 0) == token_end(t@, j as int),
        decreases t@.len() - j,
    {
        j = j + 1;
    }
    Some(slice_chars(&t, 0, j))
}

// ---------------------------------------------------------------------------
// function headers
// ---------------------------------------------------------------------------

/// The `(name, type)` pair of one argument segment `%name: type`, if the
/// segment has a `:` and its trimmed name starts with `%`.
pub open spec fn arg_pair(seg: Seq<char>) -> Option<(Seq<char>, Seq<char>)> {
    let t = trimmed(seg);
    match char_pos(t, 0, ':') {
        Some(c) => {
            let name = trimmed(t.subrange(0, c));
            if name.len() > 0 && name[0] == '%' {
                Some((name, trimmed(t.subrange(c + 1, t.len() as int))))
            } else {
                None
            }
        },
        None => None,
    }
}

/// The pairs of the first `n` segments.
pub open spec fn pairs_upto(segs: Seq<Seq<char>>, n: int) -> Seq<(Seq<char>, Seq<char>)>
    decreases n,
{
    if n <= 0 {
        Seq::empty()
    } else {
        let p = pairs_upto(segs, n - 1);
        match arg_pair(segs[n - 1]) {
            Some(x) => p.push(x),
            None => p,
        }
    }
}

/// The `(name, type)` pairs of a comma-separated argument list.
pub open spec fn args_spec(src: Seq<char>) -> Seq<(Seq<char>, Seq<char>)> {
    pairs_upto(split_on(src, ','), split_on(src, ',').len() as int)
}

/// A list of string pairs as characters.
pub open spec fn str_pairs_view(v: Seq<(String, String)>) -> Seq<(Seq<char>, Seq<char>)> {
    v.map_values(|p: (String, String)| (p.0@, p.1@))
}

/// `%name: type` segments of an argument list -> `(name, type)` pairs; other
/// segments are skipped.
pub fn parse_args(args_src: &Vec<char>) -> (r: Vec<(String, String)>)
    ensures
        str_pairs_view(r@) == args_spec(args_src@),
{
    let segs = split_char(args_src, ',');
    let ghost sp = split_on(args_src@, ',');
    let mut out: Vec<(String, String)> = Vec::new();
    let mut i: usize = 0;
    assert(str_pairs_view(out@) =~= pairs_upto(sp, 0));
    while i < segs.len()
        invariant
            0 <= i <= segs@.len(),
            segs@.len() == sp.len(),
            sp == split_on(args_src@, ','),
            forall|k: int| 0 <= k < segs@.len() ==> #[trigger] segs@[k]@ == sp[k],
            str_pairs_view(out@) == pairs_upto(sp, i as int),
        decreases segs@.len() - i,
    {
        let seg = trim(&segs[i]);
        let ghost before = out@;
        if let Some(colon) = find_char(&seg, 0, ':') {
            let seg_len = seg.len();
            let raw_name = slice_chars(&seg, 0, colon);
            let name = trim(&raw_name);
            if name.len() > 0 && name[0] == '%' {
                let raw_ty = slice_chars(&seg, colon + 1, seg.len());
                let ty = trim(&raw_ty);
                let ns = chars_to_string(&name);
                let ts = chars_to_string(&ty);
                out.push((ns, ts));
                assert(str_pairs_view(out@) =~= str_pairs_view(before).push((name@, ty@)));
            }
        }
        assert(str_pairs_view(out@) =~= pairs_upto(sp, i + 1));
        i = i + 1;
    }
    out
}

/// A decimal `usize` literal with an optional leading `+`.
pub open spec fn usize_lit(s: Seq<char>) -> Option<nat> {
    let body = if s.len() > 0 && s[0] == '+' {
        s.drop_first()
    } else {
        s
    };
    if body.len() > 0 && all_digits(body) && digits_value(body) <= usize::MAX {
        Some(digits_value(body))
    } else {
        None
    }
}

/// See [`usize_lit`].
pub fn parse_usize_lit(s: &Vec<char>) -> (r: Option<usize>)
    ensures
        r matches Some(v) ==> usize_lit(s@) == Some(v as nat),
        r is None ==> usize_lit(s@) is None,
{
    let body = if s.len() > 0 && s[0] == '+' {
        let b = slice_chars(s, 1, s.len());
        assert(b@ =~= s@.drop_first());
        b
    } else {
        slice_chars(s, 0, s.len())
    };
    assert(s@.subrange(0, s@.len() as int) =~= s@);
    match parse_u64(&body) {
        Some(v) => {
            if v <= usize::MAX as u64 {
                Some(v as usize)
            } else {
                None
            }
        },
        None => None,
    }
}

/// The numbers among the first `n` comma-separated grid entries.
pub open spec fn grid_nums(parts: Seq<Seq<char>>, n: int) -> Seq<nat>
    decreases n,
{
    if n <= 0 {
        Seq::empty()
    } else {
        let p = grid_nums(parts, n - 1);
        match usize_lit(trimmed(parts[n - 1])) {
            Some(v) => p.push(v),
            None => p,
        }
    }
}

/// Grid dimension `k`: the `k`-th number, else 1.
pub open spec fn grid_dim(nums: Seq<nat>, k: int) -> usize {
    if k < nums.len() {
        nums[k] as usize
    } else {
        1
    }
}

/// The launch grid of a function header: the numbers between the first `[`
/// and the first `]` after `grid`; missing dimensions are 1.
pub open spec fn grid_spec(h: Seq<char>) -> (usize, usize, usize) {
    match str_pos(h, 0, "grid"@) {
        None => (1usize, 1usize, 1usize),
        Some(g) => match (char_pos(h, g, '['), char_pos(h, g, ']')) {
            (Some(lb), Some(rb)) => if rb < lb + 1 {
                (1usize, 1usize, 1usize)
            } else {
                let parts = split_on(h.subrange(lb + 1, rb), ',');
                let nums = grid_nums(parts, parts.len() as int);
                (grid_dim(nums, 0), grid_dim(nums, 1), grid_dim(nums, 2))
            },
            _ => (1usize, 1usize, 1usize),
        },
    }
}

/// The launch grid of a function header: `grid = [X]`, `[X, Y]` or
/// `[X, Y, Z]`; missing dimensions (and a header without a grid) are 1.
pub fn parse_grid(header: &Vec<char>) -> (g: (usize, usize, usize))
    ensures
        g == grid_spec(header@),
{
    let gpos = match find_str(header, 0, "grid") {
        Some(p) => p,
        None => {
            return (1, 1, 1);
        },
    };
    let lb = match find_char(header, gpos, '[') {
        Some(p) => p,
        None => {
            return (1, 1, 1);
        },
    };
    let rb = match find_char(header, gpos, ']') {
        Some(p) => p,
        None => {
            return (1, 1, 1);
        },
    };
    let hn = header.len();
    if rb < lb + 1 {
        return (1, 1, 1);
    }
    let inner = slice_chars(header, lb + 1, rb);
    let parts = split_char(&inner, ',');
    let ghost sp = split_on(inner@, ',');
    let mut nums: Vec<usize> = Vec::new();
    let mut i: usize = 0;
    assert(nums@.map_values(|v: usize| v as nat) =~= grid_nums(sp, 0));
    while i < parts.len()
        invariant
            0 <= i <= parts@.len(),
            parts@.len() == sp.len(),
            sp == split_on(inner@, ','),
            forall|k: int| 0 <= k < parts@.len() ==> #[trigger] parts@[k]@ == sp[k],
            nums@.map_values(|v: usize| v as nat) == grid_nums(sp, i as int),
        decreases parts@.len() - i,
    {
        let t = trim(&parts[i]);
        let ghost before = nums@;
        if let Some(v) = parse_usize_lit(&t) {
            nums.push(v);
            assert(nums@.map_values(|v: usize| v as nat) =~= before.map_values(|v: usize| v as nat).push(v as nat));
        }
        assert(nums@.map_values(|v: usize| v as nat) =~= grid_nums(sp, i + 1));
        i = i + 1;
    }
    let ghost ns = nums@.map_values(|v: usize| v as nat);
    let x = if nums.len() > 0 {
        nums[0]
    } else {
        1
    };
    let y = if nums.len() > 1 {
        nums[1]
    } else {
        1
    };
    let z = if nums.len() > 2 {
        nums[2]
    } else {
        1
    };
    assert(x == grid_dim(ns, 0));
    assert(y == grid_dim(ns, 1));
    assert(z == grid_dim(ns, 2));
    (x, y, z)
}

/// One function found in the module text: name, arguments, grid and body.
pub struct ParsedFn {
    pub name: String,
    pub args: Vec<(String, String)>,
    pub grid: (usize, usize, usize),
    pub body: Vec<char>,
}

/// Abstract contents of a [`ParsedFn`].
pub struct FnText {
    pub name: Seq<char>,
    pub args: Seq<(Seq<char>, Seq<char>)>,
    pub grid: (usize, usize, usize),
    pub body: Seq<char>,
}

impl View for ParsedFn {
    type V = FnText;

    open spec fn view(&self) -> FnText {
        FnText { name: self.name@, args: str_pairs_view(self.args@), grid: self.grid, body: self.body@ }
    }
}

/// End of the run of letters, digits and `_` of `s` starting at `j`.
pub open spec fn fname_end(s: Seq<char>, j: int) -> int
    decreases s.len() - j,
{
    if j < 0 || j >= s.len() || !(is_alnum(s[j]) || s[j] == '_') {
        j
    } else {
        fname_end(s, j + 1)
    }
}

/// The functions of `t` from position `search` on: each `func.func @name`
/// with its argument list `(...)`, the grid in the header up to the body, and
/// the body, the last top-level `{...}` block after the arguments; or the
/// first structural error.
pub open spec fn funcs_from(t: Seq<char>, search: int) -> Result<Seq<FnText>, Seq<char>>
    decreases t.len() + 1 - search,
{
    if search < 0 || search > t.len() {
        Ok(Seq::empty())
    } else {
        match str_pos(t, search, "func.func"@) {
            None => Ok(Seq::empty()),
            Some(start) => match char_pos(t, start + 9, '@') {
                None => Err("func.func missing '@name'"@),
                Some(at) => {
                    let ne = fname_end(t, at + 1);
                    if ne >= t.len() {
                        Err("unterminated function name"@)
                    } else {
                        match char_pos(t, ne, '(') {
                            None => Err("function missing arg list"@),
                            Some(lp) => match match_spec(t, lp, '(', ')') {
                                None => Err("unbalanced function arg parens"@),
                                Some(rp) => match ltb_from(t, rp + 1, None) {
                                    None => Err("function missing body"@),
                                    Some(blk) => if search < blk.1 + 1 && blk.1 < t.len() {
                                        match funcs_from(t, blk.1 + 1) {
                                            Err(e) => Err(e),
                                            Ok(rest) => Ok(
                                                seq![
                                                    FnText {
                                                        name: t.subrange(at + 1, ne),
                                                        args: args_spec(t.subrange(lp + 1, rp)),
                                                        grid: grid_spec(t.subrange(rp, blk.0)),
                                                        body: t.subrange(blk.0 + 1, blk.1),
                                                    },
                                                ] + rest,
                                            ),
                                        }
                                    } else {
                                        Ok(Seq::empty())
                                    },
                                },
                            },
                        }
                    }
                },
            },
        }
    }
}

/// Views of parsed functions.
pub open spec fn fn_texts(v: Seq<ParsedFn>) -> Seq<FnText> {
    v.map_values(|p: ParsedFn| p@)
}

/// See [`funcs_from`]: the functions of the whole text.
pub fn find_functions(text: &Vec<char>) -> (r: Result<Vec<ParsedFn>, String>)
    ensures
        match funcs_from(text@, 0) {
            Ok(v) => r matches Ok(x) && fn_texts(x@) == v,
            Err(e) => r matches Err(x) && x@ == e,
        },
{
    let mut out: Vec<ParsedFn> = Vec::new();
    let mut search: usize = 0;
    proof {
        reveal_strlit("func.func");
        reveal_strlit("func.func missing '@name'");
        reveal_strlit("unterminated function name");
        reveal_strlit("function missing arg list");
        reveal_strlit("unbalanced function arg parens");
        reveal_strlit("function missing body");
    }
    assert(fn_texts(out@) =~= Seq::<FnText>::empty());
    while search <= text.len()
        invariant
            funcs_from(text@, 0) == (match funcs_from(text@, search as int) {
                Ok(rest) => Ok(fn_texts(out@) + rest),
                Err(e) => Err(e),
            }),
        ensures
            funcs_from(text@, 0) == Ok::<Seq<FnText>, Seq<char>>(fn_texts(out@)),
        decreases text@.len() + 1 - search,
    {
        let start = match find_str(text, search, "func.func") {
            Some(s) => s,
            None => {
                assert(fn_texts(out@) + Seq::<FnText>::empty() =~= fn_texts(out@));
                break;
            },
        };
        proof {
            reveal_strlit("func.func");
            reveal_strlit("func.func missing '@name'");
            reveal_strlit("unterminated function name");
            reveal_strlit("function missing arg list");
            reveal_strlit("unbalanced function arg parens");
            reveal_strlit("function missing body");
            assert(matches_at(text@, start as int, "func.func"@));
        }
        let after = start + 9;
        let at = match find_char(text, after, '@') {
            Some(p) => p,
            None => {
                return Err(String::from_str("func.func missing '@name'"));
            },
        };
        let name_start = at + 1;
        let mut name_end: usize = name_start;
        while name_end < text.len() && (alnum(text[name_end]) || text[name_end] == '_')
            invariant
                name_start <= name_end <= text@.len(),
                fname_end(text@, name_end as int) == fname_end(text@, name_start as int),
            decreases text@.len() - name_end,
        {
            name_end = name_end + 1;
        }
        if name_end >= text.len() {
            return Err(String::from_str("unterminated function name"));
        }
        let name = slice_chars(text, name_start, name_end);
        let lparen = match find_char(text, name_end, '(') {
            Some(p) => p,
            None => {
                return Err(String::from_str("function missing arg list"));
            },
        };
        let rparen = match matching(text, lparen, '(', ')') {
            Some(p) => p,
            None => {
                return Err(String::from_str("unbalanced function arg parens"));
            },
        };
        let args = parse_args(&slice_chars(text, lparen + 1, rparen));
        let (body_open, body_close) = match last_top_level_block(text, rparen + 1) {
            Some(b) => b,
            None => {
                return Err(String::from_str("function missing body"));
            },
        };
        let grid = parse_grid(&slice_chars(text, rparen, body_open));
        let body = slice_chars(text, body_open + 1, body_close);
        let ghost before = fn_texts(out@);
        let pf = ParsedFn { name: chars_to_string(&name), args, grid, body };
        out.push(pf);
        proof {
            assert(fn_texts(out@) =~= before.push(pf@));
            match funcs_from(text@, body_close + 1) {
                Ok(rest) => {
                    assert(seq![pf@] + rest =~= seq![pf@].add(rest));
                    assert(before + (seq![pf@] + rest) =~= before.push(pf@) + rest);
                },
                Err(e) => {},
            }
        }
        search = body_close + 1;
    }
    Ok(out)
}

// ---------------------------------------------------------------------------
// tokenizing operations
// ---------------------------------------------------------------------------

/// `s` ends with `pat`.
pub open spec fn ends_with_seq(s: Seq<char>, pat: Seq<char>) -> bool {
    pat.len() <= s.len() && matches_at(s, s.len() - pat.len(), pat)
}

/// Start of the trailing token of `s[..k]`: one past the last whitespace,
/// `:` or `>` before `k` (0 if none).
pub open spec fn tok_start(s: Seq<char>, k: int) -> int
    decreases k,
{
    if k <= 0 {
        0
    } else if is_ws(s[k - 1]) || s[k - 1] == ':' || s[k - 1] == '>' {
        k
    } else {
        tok_start(s, k - 1)
    }
}

/// `t` has a `:` or `->` and ends in a type whose last token ends in `>`, is
/// `index`, or is `iNN` / `uNN` / `fNN`.
pub open spec fn type_terminal_spec(t: Seq<char>) -> bool {
    if !contains_seq(t, ":"@) && !contains_seq(t, "->"@) {
        false
    } else {
        let last = trimmed(t);
        if ends_with_seq(last, ">"@) || ends_with_seq(last, "index"@) {
            true
        } else {
            let tok = last.subrange(tok_start(last, last.len() as int), last.len() as int);
            tok.len() >= 2 && (tok[0] == 'i' || tok[0] == 'u' || tok[0] == 'f') && all_digits(tok.drop_first())
        }
    }
}

proof fn lemma_tok_start(s: Seq<char>, k: int)
    requires
        0 <= k <= s.len(),
    ensures
        0 <= tok_start(s, k) <= k,
    decreases k,
{
    if k > 0 && !(is_ws(s[k - 1]) || s[k - 1] == ':' || s[k - 1] == '>') {
        lemma_tok_start(s, k - 1);
    }
}

/// See [`type_terminal_spec`].
pub fn ends_with_type_terminal(text: &Vec<char>) -> (b: bool)
    ensures
        b == type_terminal_spec(text@),
{
    if !contains(text, ":") && !contains(text, "->") {
        return false;
    }
    let last = trim(text);
    if ends_with(&last, ">") || ends_with(&last, "index") {
        return true;
    }
    // the token after the last whitespace, ':' or '>'
    let mut k: usize = last.len();
    while k > 0 && !(ws(last[k - 1]) || last[k - 1] == ':' || last[k - 1] == '>')
        invariant
            0 <= k <= last@.len(),
            tok_start(last@, k as int) == tok_start(last@, last@.len() as int),
        decreases k,
    {
        k = k - 1;
    }
    proof {
        lemma_tok_start(last@, last@.len() as int);
        assert(tok_start(last@, k as int) == k);
    }
    let tok = slice_chars(&last, k, last.len());
    if tok.len() < 2 {
        return false;
    }
    let c0 = tok[0];
    if !(c0 == 'i' || c0 == 'u' || c0 == 'f') {
        return false;
    }
    let mut j: usize = 1;
    while j < tok.len() && digit(tok[j])
        invariant
            1 <= j <= tok@.len(),
            forall|m: int| 0 <= m < j - 1 ==> is_digit(#[trigger] tok@.drop_first()[m]),
        decreases tok@.len() - j,
    {
        assert(tok@.drop_first()[j - 1] == tok@[j as int]);
        j = j + 1;
    }
    if j < tok.len() {
        assert(tok@.drop_first()[j - 1] == tok@[j as int]);
        assert(!is_digit(tok@.drop_first()[j - 1]));
    }
    j == tok.len()
}

/// `t` starts with `%name =` (or `%a, %b =`): a nonempty left side of the
/// first `=` ending (before trailing whitespace) in a letter, digit or `_`,
/// each comma-separated piece of which starts with `%` once trimmed.
pub open spec fn ssa_assign_spec(t: Seq<char>) -> bool {
    match char_pos(t, 0, '=') {
        None => false,
        Some(eq) => {
            let lhs = t.subrange(0, eq);
            let tl = trimmed(lhs);
            let parts = split_on(lhs, ',');
            &&& eq > 0
            &&& tl.len() > 0
            &&& (is_alnum(tl.last()) || tl.last() == '_')
            &&& forall|k: int|
                0 <= k < parts.len() ==> {
                    let p = #[trigger] trimmed(parts[k]);
                    p.len() > 0 && p[0] == '%'
                }
        },
    }
}

/// See [`ssa_assign_spec`].
pub fn starts_ssa_assign(text: &Vec<char>) -> (b: bool)
    ensures
        b == ssa_assign_spec(text@),
{
    let eq = match find_char(text, 0, '=') {
        Some(e) => e,
        None => {
            return false;
        },
    };
    if eq == 0 {
        return false;
    }
    let lhs = slice_chars(text, 0, eq);
    let t = trim(&lhs);
    if t.len() == 0 {
        return false;
    }
    let last = t[t.len() - 1];
    assert(t@.last() == last);
    if !(alnum(last) || last == '_') {
        return false;
    }
    let parts = split_char(&lhs, ',');
    let mut i: usize = 0;
    while i < parts.len() && starts_pct(&parts[i])
        invariant
            0 <= i <= parts@.len(),
            parts@.len() == split_on(lhs@, ',').len(),
            forall|k: int| 0 <= k < parts@.len() ==> #[trigger] parts@[k]@ == split_on(lhs@, ',')[k],
            forall|k: int|
                0 <= k < i ==> {
                    let p = #[trigger] trimmed(split_on(lhs@, ',')[k]);
                    p.len() > 0 && p[0] == '%'
                },
        decreases parts@.len() - i,
    {
        i = i + 1;
    }
    if i < parts.len() {
        assert(parts@[i as int]@ == split_on(lhs@, ',')[i as int]);
    }
    i == parts.len()
}

/// Whether `p`, trimmed, starts with `%`.
fn starts_pct(p: &Vec<char>) -> (b: bool)
    ensures
        b == (trimmed(p@).len() > 0 && trimmed(p@)[0] == '%'),
{
    let t = trim(p);
    t.len() > 0 && t[0] == '%'
}

/// The op is structurally complete: its head (what follows the last `= `)
/// starts with `return` or its first token ends in `.yield`, or the text ends
/// in a type annotation.
pub open spec fn op_complete_spec(text: Seq<char>) -> bool {
    let t = trimmed(text);
    if t.len() == 0 {
        false
    } else {
        let head = match rstr_pos(t, "= "@) {
            Some(p) => trimmed(t.subrange(p + 2, t.len() as int)),
            None => trimmed(t),
        };
        ||| matches_at(head, 0, "return"@)
        ||| (match first_token(head) {
            Some(tok) => ends_with_seq(tok, ".yield"@),
            None => false,
        })
        ||| type_terminal_spec(t)
    }
}

/// See [`op_complete_spec`].
pub fn is_op_complete(text: &Vec<char>) -> (b: bool)
    ensures
        b == op_complete_spec(text@),
{
    let t = trim(text);
    if t.len() == 0 {
        return false;
    }
    // the op head: what follows the last "= ", without leading whitespace
    let tn = t.len();
    let head = match rfind_str(&t, "= ") {
        Some(p) => {
            proof {
                reveal_strlit("= ");
            }
            trim(&slice_chars(&t, p + 2, tn))
        },
        None => trim(&t),
    };
    if starts_with(&head, "return") {
        return true;
    }
    if let Some(tok) = first_token_exec(&head) {
        if ends_with(&tok, ".yield") {
            return true;
        }
    }
    ends_with_type_terminal(&t)
}

/// Character vectors as sequences.
pub open spec fn cvs(v: Seq<Vec<char>>) -> Seq<Seq<char>> {
    v.map_values(|x: Vec<char>| x@)
}

/// Piece `i` of a `\n` split as a line: a `\r` before its `\n` is dropped.
pub open spec fn line_piece(parts: Seq<Seq<char>>, i: int) -> Seq<char> {
    let p = parts[i];
    if i + 1 < parts.len() && p.len() > 0 && p.last() == '\r' {
        p.drop_last()
    } else {
        p
    }
}

/// The lines among the first `n` pieces; an empty last piece (after a final
/// line break, or of empty text) is no line.
pub open spec fn lines_upto(parts: Seq<Seq<char>>, n: int) -> Seq<Seq<char>>
    decreases n,
{
    if n <= 0 {
        Seq::empty()
    } else {
        let prev = lines_upto(parts, n - 1);
        if n == parts.len() && parts[n - 1].len() == 0 {
            prev
        } else {
            prev.push(line_piece(parts, n - 1))
        }
    }
}

/// The lines of `s`.
pub open spec fn lines_spec(s: Seq<char>) -> Seq<Seq<char>> {
    lines_upto(split_on(s, '\n'), split_on(s, '\n').len() as int)
}

/// Lines of `s`: split at `\n`, a `\r` before a `\n` dropped, no line after a
/// final `\n`.
pub fn lines(s: &Vec<char>) -> (r: Vec<Vec<char>>)
    ensures
        cvs(r@) == lines_spec(s@),
{
    let parts = split_char(s, '\n');
    let ghost sp = split_on(s@, '\n');
    let mut out: Vec<Vec<char>> = Vec::new();
    let n = parts.len();
    let mut i: usize = 0;
    assert(cvs(out@) =~= lines_upto(sp, 0));
    while i < n
        invariant
            0 <= i <= n,
            n == parts@.len(),
            sp == split_on(s@, '\n'),
            parts@.len() == sp.len(),
            forall|k: int| 0 <= k < parts@.len() ==> #[trigger] parts@[k]@ == sp[k],
            cvs(out@) == lines_upto(sp, i as int),
        decreases n - i,
    {
        let ghost before = out@;
        if !(i + 1 == n && parts[i].len() == 0) {
            let p = &parts[i];
            let mut l = slice_chars(p, 0, p.len());
            assert(l@ =~= p@);
            if i + 1 < n && l.len() > 0 && l[l.len() - 1] == '\r' {
                l.pop();
            }
            assert(l@ =~= line_piece(sp, i as int));
            out.push(l);
            assert(cvs(out@) =~= cvs(before).push(l@));
        }
        assert(cvs(out@) =~= lines_upto(sp, i + 1));
        i = i + 1;
    }
    out
}

/// Pieces joined with single spaces.
pub open spec fn join_spec(parts: Seq<Seq<char>>) -> Seq<char>
    decreases parts.len(),
{
    if parts.len() == 0 {
        Seq::empty()
    } else if parts.len() == 1 {
        parts[0]
    } else {
        join_spec(parts.drop_last()) + seq![' '] + parts.last()
    }
}

/// See [`join_spec`].
pub fn join_spaces(parts: &Vec<Vec<char>>) -> (r: Vec<char>)
    ensures
        r@ == join_spec(cvs(parts@)),
{
    let ghost ps = cvs(parts@);
    let mut out: Vec<char> = Vec::new();
    let mut i: usize = 0;
    assert(out@ =~= join_spec(ps.subrange(0, 0)));
    while i < parts.len()
        invariant
            0 <= i <= parts@.len(),
            ps == cvs(parts@),
            out@ == join_spec(ps.subrange(0, i as int)),
        decreases parts@.len() - i,
    {
        let ghost pre = out@;
        if i > 0 {
            out.push(' ');
        }
        let p = &parts[i];
        let mut j: usize = 0;
        while j < p.len()
            invariant
                0 <= j <= p@.len(),
                i < parts@.len(),
                p == &parts@[i as int],
                out@ == pre + (if i > 0 {
                    seq![' ']
                } else {
                    Seq::<char>::empty()
                }) + p@.subrange(0, j as int),
            decreases p@.len() - j,
        {
            out.push(p[j]);
            assert(p@.subrange(0, j + 1) =~= p@.subrange(0, j as int).push(p@[j as int]));
            j = j + 1;
        }
        proof {
            let q = ps.subrange(0, i + 1);
            assert(q.drop_last() =~= ps.subrange(0, i as int));
            assert(q.last() == p@);
            assert(p@.subrange(0, p@.len() as int) =~= p@);
            if i == 0 {
                assert(out@ =~= p@);
            } else {
                assert(out@ =~= pre + seq![' '] + p@);
            }
        }
        i = i + 1;
    }
    assert(ps.subrange(0, parts@.len() as int) =~= ps);
    out
}

/// Net `{` minus `}` count of `t`.
pub open spec fn balance(t: Seq<char>) -> int {
    depth(t, 0, t.len() as int, '{', '}')
}

/// One line of the op tokenizer: state is (ops so far, lines of the op being
/// accumulated). A blank line ends the current op when braces balance; a
/// line ends it first when braces balance, the line does not start with
/// `->` and is not a lone `{`, and the op is complete or the line starts a
/// new SSA assignment.
pub open spec fn tok_step(st: (Seq<Seq<char>>, Seq<Seq<char>>), line: Seq<char>) -> (Seq<Seq<char>>, Seq<Seq<char>>) {
    let res = st.0;
    let cur = st.1;
    let stripped = trimmed(line);
    let acc = join_spec(cur);
    if stripped.len() == 0 {
        if cur.len() > 0 && balance(acc) == 0 {
            (res.push(acc), Seq::empty())
        } else {
            st
        }
    } else {
        let flush = cur.len() > 0 && balance(acc) == 0 && !matches_at(stripped, 0, "->"@) && (op_complete_spec(acc)
            || ssa_assign_spec(stripped)) && !(stripped.len() == 1 && stripped[0] == '{');
        if flush {
            (res.push(acc), seq![stripped])
        } else {
            (res, cur.push(stripped))
        }
    }
}

/// The tokenizer state after the first `n` lines.
pub open spec fn tok_fold(ls: Seq<Seq<char>>, n: int) -> (Seq<Seq<char>>, Seq<Seq<char>>)
    decreases n,
{
    if n <= 0 {
        (Seq::empty(), Seq::empty())
    } else {
        tok_step(tok_fold(ls, n - 1), ls[n - 1])
    }
}

/// The complete operation texts of a function body (see [`tok_step`]).
pub open spec fn tokenize_spec(body: Seq<char>) -> Seq<Seq<char>> {
    let ls = lines_spec(body);
    let st = tok_fold(ls, ls.len() as int);
    if st.1.len() > 0 {
        st.0.push(join_spec(st.1))
    } else {
        st.0
    }
}

/// Group a function body's lines into complete operation texts: lines are
/// accumulated until braces balance and the accumulated text is a complete
/// op (or the next line starts a new SSA assignment), never splitting
/// before a line that starts with `->` or is a lone `{`; a blank line ends
/// the current op when braces balance.
pub fn tokenize_ops(body: &Vec<char>) -> (r: Vec<Vec<char>>)
    ensures
        cvs(r@) == tokenize_spec(body@),
{
    let ls = lines(body);
    let ghost lv = cvs(ls@);
    let mut results: Vec<Vec<char>> = Vec::new();
    let mut current: Vec<Vec<char>> = Vec::new();
    let mut i: usize = 0;
    assert(cvs(results@) =~= Seq::<Seq<char>>::empty());
    assert(cvs(current@) =~= Seq::<Seq<char>>::empty());
    while i < ls.len()
        invariant
            0 <= i <= ls@.len(),
            lv == cvs(ls@),
            (cvs(results@), cvs(current@)) == tok_fold(lv, i as int),
        decreases ls@.len() - i,
    {
        let stripped = trim(&ls[i]);
        let ghost r0 = cvs(results@);
        let ghost c0 = cvs(current@);
        assert(lv[i as int] == ls@[i as int]@);
        if stripped.len() == 0 {
            let acc = join_spaces(&current);
            if brace_balance(&acc) == 0 && current.len() > 0 {
                results.push(acc);
                current = Vec::new();
                assert(cvs(results@) =~= r0.push(acc@));
                assert(cvs(current@) =~= Seq::<Seq<char>>::empty());
            }
        } else {
            let mut flushed = false;
            if current.len() > 0 {
                let acc = join_spaces(&current);
                if brace_balance(&acc) == 0 && !starts_with(&stripped, "->") {
                    let prev_done = is_op_complete(&acc) || starts_ssa_assign(&stripped);
                    let next_cannot_start = stripped.len() == 1 && stripped[0] == '{';
                    if prev_done && !next_cannot_start {
                        results.push(acc);
                        current = Vec::new();
                        flushed = true;
                        assert(cvs(results@) =~= r0.push(join_spec(c0)));
                    }
                }
            }
            let ghost c1 = cvs(current@);
            current.push(stripped);
            assert(cvs(current@) =~= c1.push(stripped@));
            if flushed {
                assert(cvs(current@) =~= seq![stripped@]);
            }
        }
        i = i + 1;
    }
    if current.len() > 0 {
        let acc = join_spaces(&current);
        let ghost r0 = cvs(results@);
        results.push(acc);
        assert(cvs(results@) =~= r0.push(acc@));
    }
    results
}

// ---------------------------------------------------------------------------
// parsing one operation
// ---------------------------------------------------------------------------

/// `%result = rest`: the trimmed left side of the first `=` when it is a
/// single SSA name (starts with `%`, no whitespace) and the right side does not
/// start with another `=`.
pub open spec fn split_assign_spec(t: Seq<char>) -> Option<(Seq<char>, Seq<char>)> {
    match char_pos(t, 0, '=') {
        None => None,
        Some(eq) => {
            let lhs = trimmed(t.subrange(0, eq));
            let rhs = t.subrange(eq + 1, t.len() as int);
            if lhs.len() > 0 && lhs[0] == '%' && (forall|k: int| 0 <= k < lhs.len() ==> !is_ws(#[trigger] lhs[k]))
                && !matches_at(rhs, 0, "="@) {
                Some((lhs, rhs))
            } else {
                None
            }
        },
    }
}

/// Split `%result = rest` into the trimmed result name and the rest, when
/// the left-hand side is a single SSA name (so `==` or an attribute `=` is
/// not mistaken for an assignment).
pub fn split_assignment(text: &Vec<char>) -> (r: Option<(Vec<char>, Vec<char>)>)
    ensures
        r matches Some((lhs, rhs)) ==> split_assign_spec(text@) == Some((lhs@, rhs@)),
        r is None ==> split_assign_spec(text@) is None,
{
    let eq = find_char(text, 0, '=')?;
    let tn = text.len();
    let raw_lhs = slice_chars(text, 0, eq);
    let lhs = trim(&raw_lhs);
    let rhs = slice_chars(text, eq + 1, text.len());
    if !(lhs.len() > 0 && lhs[0] == '%') {
        return None;
    }
    let mut k: usize = 0;
    while k < lhs.len() && !ws(lhs[k])
        invariant
            0 <= k <= lhs@.len(),
            forall|j: int| 0 <= j < k ==> !is_ws(#[trigger] lhs@[j]),
        decreases lhs@.len() - k,
    {
        k = k + 1;
    }
    if k < lhs.len() {
        assert(is_ws(lhs@[k as int]));
        return None;
    }
    if starts_with(&rhs, "=") {
        return None;
    }
    Some((lhs, rhs))
}

/// `s` with every `{...}` block replaced by a single space, the first block
/// first; an unterminated block and everything after it are dropped.
pub open spec fn rbb(s: Seq<char>) -> Seq<char>
    decreases s.len(),
{
    match char_pos(s, 0, '{') {
        None => s,
        Some(o) => match match_spec(s, o, '{', '}') {
            Some(c) => if 0 <= o < c < s.len() {
                rbb(s.subrange(0, o) + seq![' '] + s.subrange(c + 1, s.len() as int))
            } else {
                s
            },
            None => s.subrange(0, o),
        },
    }
}

/// See [`rbb`].
pub fn remove_brace_blocks(text: &Vec<char>) -> (r: Vec<char>)
    ensures
        r@ == rbb(text@),
        !r@.contains('{'),
{
    let mut s = slice_chars(text, 0, text.len());
    assert(s@ =~= text@);
    loop
        invariant_except_break
            rbb(s@) == rbb(text@),
        ensures
            s@ == rbb(text@),
            !s@.contains('{'),
        decreases s@.len(),
    {
        let open = match find_char(&s, 0, '{') {
            Some(o) => o,
            None => {
                assert(!s@.contains('{')) by {
                    if s@.contains('{') {
                        let j = choose|j: int| 0 <= j < s@.len() && s@[j] == '{';
                        assert(s@[j] != '{');
                    }
                }
                break;
            },
        };
        match matching(&s, open, '{', '}') {
            Some(close) => {
                let ghost old_s = s@;
                let mut t = slice_chars(&s, 0, open);
                t.push(' ');
                let sn = s.len();
                let tail = slice_chars(&s, close + 1, sn);
                let mut k: usize = 0;
                while k < tail.len()
                    invariant
                        0 <= k <= tail@.len(),
                        t@ == old_s.subrange(0, open as int) + seq![' '] + tail@.subrange(0, k as int),
                    decreases tail@.len() - k,
                {
                    t.push(tail[k]);
                    assert(tail@.subrange(0, k + 1) =~= tail@.subrange(0, k as int).push(tail@[k as int]));
                    k = k + 1;
                }
                assert(tail@.subrange(0, tail@.len() as int) =~= tail@);
                assert(t@ =~= old_s.subrange(0, open as int) + seq![' '] + old_s.subrange(close + 1, old_s.len() as int));
                s = t;
            },
            None => {
                let t = slice_chars(&s, 0, open);
                proof {
                    assert(!t@.contains('{')) by {
                        if t@.contains('{') {
                            let j = choose|j: int| 0 <= j < t@.len() && t@[j] == '{';
                            assert(s@[j] == '{');
                        }
                    }
                }
                s = t;
                break;
            },
        }
    }
    s
}

/// A character that continues an SSA name.
pub open spec fn is_name_char(c: char) -> bool {
    is_alnum(c) || c == '_' || c == '$' || c == '.'
}

/// End of the run of SSA-name characters of `s` starting at `j`.
pub open spec fn name_end(s: Seq<char>, j: int) -> int
    decreases s.len() - j,
{
    if j < 0 || j >= s.len() || !is_name_char(s[j]) {
        j
    } else {
        name_end(s, j + 1)
    }
}

proof fn lemma_name_end(s: Seq<char>, j: int)
    requires
        0 <= j,
    ensures
        j <= name_end(s, j),
        j <= s.len() ==> name_end(s, j) <= s.len(),
    decreases s.len() - j,
{
    if j < s.len() && is_name_char(s[j]) {
        lemma_name_end(s, j + 1);
    }
}

/// Scanning `c` from `i`: each `%name` not yet in `out`, other than the
/// result name and longer than the bare `%`, is appended.
pub open spec fn operands_scan(c: Seq<char>, i: int, res: Option<Seq<char>>, out: Seq<Seq<char>>) -> Seq<Seq<char>>
    decreases c.len() - i,
{
    if i < 0 || i >= c.len() {
        out
    } else if c[i] == '%' {
        let j = name_end(c, i + 1);
        let name = c.subrange(i, j);
        let keep = res != Some(name) && name.len() > 1 && !out.contains(name);
        if i < j <= c.len() {
            operands_scan(c, j, res, if keep { out.push(name) } else { out })
        } else {
            out
        }
    } else {
        operands_scan(c, i + 1, res, out)
    }
}

/// The SSA names mentioned in `t` outside `{...}` blocks, first-seen order,
/// each once, without the result name `res`.
pub open spec fn operands_spec(t: Seq<char>, res: Option<Seq<char>>) -> Seq<Seq<char>> {
    operands_scan(rbb(t), 0, res, Seq::empty())
}

/// Strings as character sequences.
pub open spec fn strs_view(v: Seq<String>) -> Seq<Seq<char>> {
    v.map_values(|x: String| x@)
}

/// The characters of an optional character vector.
pub open spec fn opt_chars(v: Option<&Vec<char>>) -> Option<Seq<char>> {
    match v {
        Some(x) => Some(x@),
        None => None,
    }
}

/// The SSA names (`%` followed by letters, digits, `_`, `$`, `.`) mentioned
/// in `text` outside `{...}` blocks, in first-seen order, without
/// repetitions and without the op's own result name.
pub fn extract_operands(text: &Vec<char>, result: Option<&Vec<char>>) -> (r: Vec<String>)
    ensures
        strs_view(r@) == operands_spec(text@, opt_chars(result)),
{
    let cleaned = remove_brace_blocks(text);
    let ghost c = cleaned@;
    let ghost res = opt_chars(result);
    let mut out: Vec<String> = Vec::new();
    let mut i: usize = 0;
    assert(strs_view(out@) =~= Seq::<Seq<char>>::empty());
    while i < cleaned.len()
        invariant
            0 <= i <= cleaned@.len(),
            c == cleaned@,
            res == opt_chars(result),
            operands_scan(c, i as int, res, strs_view(out@)) == operands_spec(text@, res),
        decreases cleaned@.len() - i,
    {
        if cleaned[i] == '%' {
            let mut j: usize = i + 1;
            while j < cleaned.len() && (alnum(cleaned[j]) || cleaned[j] == '_' || cleaned[j] == '$'
                || cleaned[j] == '.')
                invariant
                    i < j <= cleaned@.len(),
                    name_end(c, j as int) == name_end(c, i + 1),
                    c == cleaned@,
                decreases cleaned@.len() - j,
            {
                j = j + 1;
            }
            assert(name_end(c, j as int) == j);
            let name = slice_chars(&cleaned, i, j);
            let is_result = match result {
                Some(res) => crate::text::chars_eq(&name, res),
                None => false,
            };
            let ghost ov = strs_view(out@);
            if !is_result && name.len() > 1 {
                let ns = chars_to_string(&name);
                let mut dup = false;
                let mut k: usize = 0;
                while k < out.len()
                    invariant
                        0 <= k <= out@.len(),
                        ns@ == name@,
                        dup == (exists|a: int| 0 <= a < k && (#[trigger] out@[a])@ == name@),
                    decreases out@.len() - k,
                {
                    if crate::text::str_eq(out[k].as_str(), ns.as_str()) {
                        dup = true;
                    }
                    k = k + 1;
                }
                assert(dup == ov.contains(name@)) by {
                    if dup {
                        let a = choose|a: int| 0 <= a < out@.len() && (#[trigger] out@[a])@ == name@;
                        assert(ov[a] == name@);
                    }
                    if ov.contains(name@) {
                        let a = choose|a: int| 0 <= a < ov.len() && ov[a] == name@;
                        assert(out@[a]@ == name@);
                    }
                }
                if !dup {
                    out.push(ns);
                    assert(strs_view(out@) =~= ov.push(name@));
                }
            }
            i = j;
        } else {
            i = i + 1;
        }
    }
    out
}

/// The result type: what follows the last `->` when nonempty, or else what
/// follows the last `:` outside `{...}` blocks (unless empty or an SSA name).
pub open spec fn result_type_spec(t: Seq<char>) -> Option<Seq<char>> {
    let arrow = match rstr_pos(t, "->"@) {
        Some(a) => trimmed(t.subrange(a + 2, t.len() as int)),
        None => Seq::empty(),
    };
    if arrow.len() > 0 {
        Some(arrow)
    } else {
        let c = rbb(t);
        match rstr_pos(c, ":"@) {
            None => None,
            Some(k) => {
                let r = trimmed(c.subrange(k + 1, c.len() as int));
                if r.len() == 0 || r[0] == '%' {
                    None
                } else {
                    Some(r)
                }
            },
        }
    }
}

/// See [`result_type_spec`].
pub fn extract_result_type(text: &Vec<char>) -> (r: Option<Vec<char>>)
    ensures
        r matches Some(t) ==> result_type_spec(text@) == Some(t@),
        r is None ==> result_type_spec(text@) is None,
{
    let tn = text.len();
    if let Some(arrow) = rfind_str(text, "->") {
        proof {
            reveal_strlit("->");
        }
        let raw = slice_chars(text, arrow + 2, text.len());
        let t = trim(&raw);
        if t.len() > 0 {
            return Some(t);
        }
    }
    let cleaned = remove_brace_blocks(text);
    let colon = match rfind_str(&cleaned, ":") {
        Some(c) => c,
        None => {
            return None;
        },
    };
    proof {
        reveal_strlit(":");
    }
    let cn = cleaned.len();
    let raw = slice_chars(&cleaned, colon + 1, cleaned.len());
    let t = trim(&raw);
    if t.len() == 0 || t[0] == '%' {
        None
    } else {
        Some(t)
    }
}

/// End of the run of decimal digits of `s` starting at `i`.
pub open spec fn digit_run(s: Seq<char>, i: int) -> int
    decreases s.len() - i,
{
    if i < 0 || i >= s.len() || !is_digit(s[i]) {
        i
    } else {
        digit_run(s, i + 1)
    }
}

/// A decimal floating-point literal: optional sign, digits with an optional
/// `.` fraction (at least one digit overall), optional exponent (`e` or `E`,
/// optional sign, at least one digit), and nothing else.
pub open spec fn float_lit_spec(s: Seq<char>) -> bool {
    let i0: int = if s.len() > 0 && (s[0] == '+' || s[0] == '-') {
        1
    } else {
        0
    };
    let i1 = digit_run(s, i0);
    let has_frac = i1 < s.len() && s[i1] == '.';
    let i2 = if has_frac {
        digit_run(s, i1 + 1)
    } else {
        i1
    };
    let digits = (i1 - i0) + (if has_frac {
        i2 - (i1 + 1)
    } else {
        0
    });
    if digits == 0 {
        false
    } else if i2 < s.len() && (s[i2] == 'e' || s[i2] == 'E') {
        let i3 = if i2 + 1 < s.len() && (s[i2 + 1] == '+' || s[i2 + 1] == '-') {
            i2 + 2
        } else {
            i2 + 1
        };
        let i4 = digit_run(s, i3);
        i4 > i3 && i4 == s.len()
    } else {
        i2 == s.len()
    }
}

proof fn lemma_digit_run(s: Seq<char>, i: int)
    requires
        0 <= i <= s.len(),
    ensures
        i <= digit_run(s, i) <= s.len(),
    decreases s.len() - i,
{
    if i < s.len() && is_digit(s[i]) {
        lemma_digit_run(s, i + 1);
    }
}

fn digit_run_exec(s: &Vec<char>, i: usize) -> (j: usize)
    requires
        i <= s@.len(),
    ensures
        j == digit_run(s@, i as int),
        i <= j <= s@.len(),
{
    let mut j: usize = i;
    while j < s.len() && digit(s[j])
        invariant
            i <= j <= s@.len(),
            digit_run(s@, j as int) == digit_run(s@, i as int),
        decreases s@.len() - j,
    {
        j = j + 1;
    }
    j
}

/// See [`float_lit_spec`].
pub fn is_float_literal(s: &Vec<char>) -> (b: bool)
    ensures
        b == float_lit_spec(s@),
{
    let n = s.len();
    let i0: usize = if n > 0 && (s[0] == '+' || s[0] == '-') {
        1
    } else {
        0
    };
    let i1 = digit_run_exec(s, i0);
    let has_frac = i1 < n && s[i1] == '.';
    let i2 = if has_frac {
        digit_run_exec(s, i1 + 1)
    } else {
        i1
    };
    let digits = (i1 - i0) + (if has_frac {
        i2 - (i1 + 1)
    } else {
        0
    });
    if digits == 0 {
        return false;
    }
    if i2 < n && (s[i2] == 'e' || s[i2] == 'E') {
        let i3 = if i2 + 1 < n && (s[i2 + 1] == '+' || s[i2 + 1] == '-') {
            i2 + 2
        } else {
            i2 + 1
        };
        let i4 = digit_run_exec(s, i3);
        i4 > i3 && i4 == n
    } else {
        i2 == n
    }
}

/// Lower-case hexadecimal digit of `d` (`0 <= d < 16`).
pub open spec fn hex_digit(d: int) -> char {
    seq!['0', '1', '2', '3', '4', '5', '6', '7', '8', '9', 'a', 'b', 'c', 'd', 'e', 'f'][d]
}

/// How `Debug` shows character `c` inside a quoted string: backslash escapes
/// for NUL, tab, carriage return, newline, backslash and double quote;
/// `\u{..}` (lower-case hex, no leading zeros) for the other ASCII control
/// characters; every other character as itself.
pub open spec fn char_escape(c: char) -> Seq<char> {
    let v = c as u32;
    if v == 0 {
        seq!['\\', '0']
    } else if c == '\t' {
        seq!['\\', 't']
    } else if c == '\r' {
        seq!['\\', 'r']
    } else if c == '\n' {
        seq!['\\', 'n']
    } else if c == '\\' || c == '"' {
        seq!['\\', c]
    } else if v < 0x20 || v == 0x7f {
        seq!['\\', 'u', '{'] + (if v < 16 {
            seq![hex_digit(v as int)]
        } else {
            seq![hex_digit((v / 16) as int), hex_digit((v % 16) as int)]
        }) + seq!['}']
    } else {
        seq![c]
    }
}

/// `s` with each character escaped as [`char_escape`] has it.
pub open spec fn debug_escape(s: Seq<char>) -> Seq<char>
    decreases s.len(),
{
    if s.len() == 0 {
        Seq::empty()
    } else {
        debug_escape(s.drop_last()) + char_escape(s.last())
    }
}

/// `s` in double quotes, escaped (see [`debug_escape`]).
pub open spec fn debug_quoted(s: Seq<char>) -> Seq<char> {
    seq!['"'] + debug_escape(s) + seq!['"']
}

fn push_escaped(out: &mut Vec<char>, c: char)
    ensures
        final(out)@ == old(out)@ + char_escape(c),
{
    let digits = ['0', '1', '2', '3', '4', '5', '6', '7', '8', '9', 'a', 'b', 'c', 'd', 'e', 'f'];
    assert(digits@ == seq!['0', '1', '2', '3', '4', '5', '6', '7', '8', '9', 'a', 'b', 'c', 'd', 'e', 'f']);
    let v = c as u32;
    if v == 0 {
        out.push('\\');
        out.push('0');
    } else if c == '\t' {
        out.push('\\');
        out.push('t');
    } else if c == '\r' {
        out.push('\\');
        out.push('r');
    } else if c == '\n' {
        out.push('\\');
        out.push('n');
    } else if c == '\\' || c == '"' {
        out.push('\\');
        out.push(c);
    } else if v < 0x20 || v == 0x7f {
        out.push('\\');
        out.push('u');
        out.push('{');
        if v < 16 {
            out.push(digits[v as usize]);
        } else {
            out.push(digits[(v / 16) as usize]);
            out.push(digits[(v % 16) as usize]);
        }
        out.push('}');
    } else {
        out.push(c);
    }
    assert(final(out)@ =~= old(out)@ + char_escape(c));
}

pub(crate) fn quoted(s: &Vec<char>) -> (r: String)
    ensures
        r@ == debug_quoted(s@),
{
    let mut out: Vec<char> = Vec::new();
    out.push('"');
    let mut i: usize = 0;
    while i < s.len()
        invariant
            0 <= i <= s@.len(),
            out@ == seq!['"'] + debug_escape(s@.subrange(0, i as int)),
        decreases s@.len() - i,
    {
        let c = s[i];
        push_escaped(&mut out, c);
        assert(s@.subrange(0, i + 1).drop_last() =~= s@.subrange(0, i as int));
        i = i + 1;
    }
    out.push('"');
    assert(s@.subrange(0, s@.len() as int) =~= s@);
    chars_to_string(&out)
}

/// The value attribute of `arith.constant <lit> : <type>` (the first token
/// before any `:`): `true` / `false`; a literal with `.`, `e` or `E` must be a
/// float literal and is kept as written; anything else must be an `i64`.
pub open spec fn const_value_spec(after: Seq<char>) -> Result<crate::ir::AttrView, Seq<char>> {
    match first_token(split_on(after, ':')[0]) {
        None => Err("arith.constant: missing literal"@),
        Some(lit) => if lit == "true"@ {
            Ok(crate::ir::AttrView::Bool(true))
        } else if lit == "false"@ {
            Ok(crate::ir::AttrView::Bool(false))
        } else if char_pos(lit, 0, '.') is Some || char_pos(lit, 0, 'e') is Some || char_pos(lit, 0, 'E') is Some {
            if float_lit_spec(lit) {
                Ok(crate::ir::AttrView::Float(lit))
            } else {
                Err("arith.constant: bad float literal "@ + debug_quoted(lit))
            }
        } else {
            match int_literal_value(lit) {
                Some(v) => if i64::MIN <= v <= i64::MAX {
                    Ok(crate::ir::AttrView::Int(v as i64))
                } else {
                    Err("arith.constant: bad int literal "@ + debug_quoted(lit))
                },
                None => Err("arith.constant: bad int literal "@ + debug_quoted(lit)),
            }
        },
    }
}

/// See [`const_value_spec`].
pub fn parse_constant_value(after_op: &Vec<char>) -> (r: Result<Attr, String>)
    ensures
        r matches Ok(a) ==> const_value_spec(after_op@) == Ok::<crate::ir::AttrView, Seq<char>>(a@),
        r matches Err(e) ==> const_value_spec(after_op@) == Err::<crate::ir::AttrView, Seq<char>>(e@),
{
    let parts = split_char(after_op, ':');
    proof {
        lemma_split_nonempty(after_op@, ':');
        reveal_strlit("arith.constant: missing literal");
        reveal_strlit("true");
        reveal_strlit("false");
    }
    let lit = match first_token_exec(&parts[0]) {
        Some(l) => l,
        None => {
            return Err(String::from_str("arith.constant: missing literal"));
        },
    };
    let t = str_to_chars("true");
    let f = str_to_chars("false");
    if crate::text::chars_eq(&lit, &t) {
        return Ok(Attr::Bool(true));
    }
    if crate::text::chars_eq(&lit, &f) {
        return Ok(Attr::Bool(false));
    }
    if find_char(&lit, 0, '.').is_some() || find_char(&lit, 0, 'e').is_some() || find_char(
        &lit,
        0,
        'E',
    ).is_some() {
        if is_float_literal(&lit) {
            return Ok(Attr::Float(chars_to_string(&lit)));
        }
        let mut m = String::from_str("arith.constant: bad float literal ");
        m.append(quoted(&lit).as_str());
        return Err(m);
    }
    match parse_i64(&lit) {
        Some(v) => Ok(Attr::Int(v)),
        None => {
            let mut m = String::from_str("arith.constant: bad int literal ");
            m.append(quoted(&lit).as_str());
            Err(m)
        },
    }
}

/// The operands of infix `a <sym> b` in `bc`: split at the first `sym`, both
/// sides trimmed, both SSA names, the left one without inner whitespace.
pub open spec fn infix_try(bc: Seq<char>, sym: char) -> Option<(Seq<char>, Seq<char>)> {
    match char_pos(bc, 0, sym) {
        None => None,
        Some(pos) => {
            let a = trimmed(bc.subrange(0, pos));
            let b = trimmed(bc.subrange(pos + 1, bc.len() as int));
            if a.len() > 0 && a[0] == '%' && b.len() > 0 && b[0] == '%' && (forall|m: int|
                1 <= m < a.len() ==> !is_ws(#[trigger] a[m])) {
                Some((a, b))
            } else {
                None
            }
        },
    }
}

/// The op `name(a, b)` with result `lhs` and result type `rt`.
pub open spec fn infix_view(lhs: Seq<char>, name: Seq<char>, ab: (Seq<char>, Seq<char>), rt: Option<Seq<char>>) -> crate::ir::OpView {
    crate::ir::OpView {
        result: Some(lhs),
        op_type: name,
        operands: seq![ab.0, ab.1],
        attributes: Seq::empty(),
        result_type: rt,
        regions: Seq::empty(),
    }
}

/// Infix index arithmetic `%r = %a <sym> %b : type`, trying `*`, then `+`,
/// then `-`, as `arith.muli` / `arith.addi` / `arith.subi`; the result type
/// is the trimmed text after the first `:`, if any.
pub open spec fn index_binary_spec(t: Seq<char>) -> Option<crate::ir::OpView> {
    match split_assign_spec(t) {
        None => None,
        Some((lhs, rhs0)) => {
            let rhs = trimmed(rhs0);
            if !(rhs.len() > 0 && rhs[0] == '%') {
                None
            } else {
                let pieces = split_on(rhs, ':');
                let bc = trimmed(pieces[0]);
                let rt = if pieces.len() > 1 {
                    Some(trimmed(pieces[1]))
                } else {
                    None
                };
                match infix_try(bc, '*') {
                    Some(ab) => Some(infix_view(lhs, "arith.muli"@, ab, rt)),
                    None => match infix_try(bc, '+') {
                        Some(ab) => Some(infix_view(lhs, "arith.addi"@, ab, rt)),
                        None => match infix_try(bc, '-') {
                            Some(ab) => Some(infix_view(lhs, "arith.subi"@, ab, rt)),
                            None => None,
                        },
                    },
                }
            }
        },
    }
}

fn infix_try_exec(bc: &Vec<char>, sym: char) -> (r: Option<(Vec<char>, Vec<char>)>)
    ensures
        r matches Some((a, b)) ==> infix_try(bc@, sym) == Some((a@, b@)),
        r is None ==> infix_try(bc@, sym) is None,
{
    let pos = find_char(bc, 0, sym)?;
    let bn = bc.len();
    let a = trim(&slice_chars(bc, 0, pos));
    let b = trim(&slice_chars(bc, pos + 1, bn));
    if !(a.len() > 0 && a[0] == '%' && b.len() > 0 && b[0] == '%') {
        return None;
    }
    let mut k: usize = 1;
    while k < a.len() && !ws(a[k])
        invariant
            1 <= k <= a@.len(),
            forall|m: int| 1 <= m < k ==> !is_ws(#[trigger] a@[m]),
        decreases a@.len() - k,
    {
        k = k + 1;
    }
    if k < a.len() {
        assert(is_ws(a@[k as int]));
        return None;
    }
    Some((a, b))
}

/// See [`index_binary_spec`].
pub fn parse_index_binary(text: &Vec<char>) -> (r: Option<Operation>)
    ensures
        r matches Some(op) ==> index_binary_spec(text@) == Some(op@),
        r is None ==> index_binary_spec(text@) is None,
{
    let (lhs, rhs0) = split_assignment(text)?;
    let rhs = trim(&rhs0);
    if !(rhs.len() > 0 && rhs[0] == '%') {
        return None;
    }
    let pieces = split_char(&rhs, ':');
    proof {
        lemma_split_nonempty(rhs@, ':');
        reveal_strlit("arith.muli");
        reveal_strlit("arith.addi");
        reveal_strlit("arith.subi");
    }
    let before_colon = trim(&pieces[0]);
    let rty = if pieces.len() > 1 {
        Some(chars_to_string(&trim(&pieces[1])))
    } else {
        None
    };
    let (op_name, ab) = match infix_try_exec(&before_colon, '*') {
        Some(ab) => ("arith.muli", ab),
        None => match infix_try_exec(&before_colon, '+') {
            Some(ab) => ("arith.addi", ab),
            None => match infix_try_exec(&before_colon, '-') {
                Some(ab) => ("arith.subi", ab),
                None => {
                    return None;
                },
            },
        },
    };
    let mut operands: Vec<String> = Vec::new();
    operands.push(chars_to_string(&ab.0));
    operands.push(chars_to_string(&ab.1));
    let op = Operation {
        result: Some(chars_to_string(&lhs)),
        op_type: String::from_str(op_name),
        operands,
        attributes: Vec::new(),
        result_type: rty,
        regions: Vec::new(),
    };
    proof {
        let rt = if pieces@.len() > 1 {
            Some(trimmed(split_on(rhs@, ':')[1]))
        } else {
            None
        };
        let v = infix_view(lhs@, op_name@, (ab.0@, ab.1@), rt);
        assert(op@.operands =~= v.operands);
        assert(op@.attributes =~= v.attributes);
        assert(op@.regions =~= v.regions);
        assert(op@ == v);
    }
    Some(op)
}

/// One complete operation text: blank text is no operation; infix index
/// arithmetic first; otherwise an optional `%result =`, the op type (first
/// token), and from the rest the result type and the operands (without the
/// result name); `arith.constant` also gets its `value` attribute.
pub open spec fn parse_op_spec(text: Seq<char>) -> Result<Option<crate::ir::OpView>, Seq<char>> {
    let t = trimmed(text);
    if t.len() == 0 {
        Ok(None)
    } else {
        match index_binary_spec(t) {
            Some(op) => Ok(Some(op)),
            None => {
                let sa = split_assign_spec(t);
                let result = match sa {
                    Some(p) => Some(p.0),
                    None => None,
                };
                let rest = trimmed(
                    match sa {
                        Some(p) => p.1,
                        None => t,
                    },
                );
                match first_token(rest) {
                    None => Err("operation missing op_type"@),
                    Some(ot) => {
                        let after = trimmed(rest.subrange(ot.len() as int, rest.len() as int));
                        let rt = result_type_spec(after);
                        let operands = operands_spec(after, result);
                        if ot == "arith.constant"@ {
                            match const_value_spec(after) {
                                Err(e) => Err(e),
                                Ok(v) => Ok(
                                    Some(
                                        crate::ir::OpView {
                                            result,
                                            op_type: ot,
                                            operands,
                                            attributes: seq![("value"@, v)],
                                            result_type: rt,
                                            regions: Seq::empty(),
                                        },
                                    ),
                                ),
                            }
                        } else {
                            Ok(
                                Some(
                                    crate::ir::OpView {
                                        result,
                                        op_type: ot,
                                        operands,
                                        attributes: Seq::empty(),
                                        result_type: rt,
                                        regions: Seq::empty(),
                                    },
                                ),
                            )
                        }
                    },
                }
            },
        }
    }
}

/// The view of a parse result.
pub open spec fn parsed_view(r: Result<Option<Operation>, String>) -> Result<Option<crate::ir::OpView>, Seq<char>> {
    match r {
        Ok(Some(op)) => Ok(Some(op@)),
        Ok(None) => Ok(None),
        Err(e) => Err(e@),
    }
}

/// See [`parse_op_spec`].
pub fn parse_operation(text: &Vec<char>) -> (r: Result<Option<Operation>, String>)
    ensures
        parsed_view(r) == parse_op_spec(text@),
{
    let t = trim(text);
    if t.len() == 0 {
        return Ok(None);
    }
    if let Some(op) = parse_index_binary(&t) {
        return Ok(Some(op));
    }
    let (result, rest0) = match split_assignment(&t) {
        Some((r, rest)) => (Some(r), rest),
        None => (None, slice_chars(&t, 0, t.len())),
    };
    assert(t@.subrange(0, t@.len() as int) =~= t@);
    let rest = trim(&rest0);
    proof {
        reveal_strlit("operation missing op_type");
        reveal_strlit("arith.constant");
        reveal_strlit("value");
    }
    let op_type = match first_token_exec(&rest) {
        Some(o) => o,
        None => {
            return Err(String::from_str("operation missing op_type"));
        },
    };
    proof {
        crate::scan::lemma_trimmed_idempotent(rest0@);
        lemma_token_end(rest@, 0);
    }
    let after_op = trim(&slice_chars(&rest, op_type.len(), rest.len()));
    let result_type = match extract_result_type(&after_op) {
        Some(rt) => Some(chars_to_string(&rt)),
        None => None,
    };
    let operands = match &result {
        Some(r) => extract_operands(&after_op, Some(r)),
        None => extract_operands(&after_op, None),
    };
    let mut attributes: Vec<(String, Attr)> = Vec::new();
    let ac = str_to_chars("arith.constant");
    let is_const = crate::text::chars_eq(&op_type, &ac);
    if is_const {
        let v = parse_constant_value(&after_op)?;
        attributes.push((String::from_str("value"), v));
    }
    let res = match result {
        Some(r) => Some(chars_to_string(&r)),
        None => None,
    };
    let op = Operation {
        result: res,
        op_type: chars_to_string(&op_type),
        operands,
        attributes,
        result_type,
        regions: Vec::new(),
    };
    proof {
        assert(op@.regions =~= Seq::<Seq<crate::ir::OpView>>::empty());
        if is_const {
            assert(op@.attributes =~= seq![("value"@, attributes@[0].1@)]);
        } else {
            assert(op@.attributes =~= Seq::<(Seq<char>, crate::ir::AttrView)>::empty());
        }
    }
    Ok(Some(op))
}

/// The operations of the first `n` op texts (blank ones skipped), or the
/// first parse error.
pub open spec fn ops_of(toks: Seq<Seq<char>>, n: int) -> Result<Seq<crate::ir::OpView>, Seq<char>>
    decreases n,
{
    if n <= 0 {
        Ok(Seq::empty())
    } else {
        match ops_of(toks, n - 1) {
            Err(e) => Err(e),
            Ok(prev) => match parse_op_spec(toks[n - 1]) {
                Err(e) => Err(e),
                Ok(None) => Ok(prev),
                Ok(Some(op)) => Ok(prev.push(op)),
            },
        }
    }
}

proof fn lemma_ops_err_sticks(toks: Seq<Seq<char>>, n: int, m: int)
    requires
        n <= m,
        ops_of(toks, n) is Err,
    ensures
        ops_of(toks, m) == ops_of(toks, n),
    decreases m - n,
{
    if n < m {
        lemma_ops_err_sticks(toks, n, m - 1);
    }
}

/// Abstract contents of a parsed function.
pub struct FnView {
    pub name: Seq<char>,
    pub arguments: Seq<(Seq<char>, Seq<char>)>,
    pub operations: Seq<crate::ir::OpView>,
    pub grid: (usize, usize, usize),
}

/// The abstract contents of a function.
pub open spec fn fn_view(f: IRFunction) -> FnView {
    FnView {
        name: f.name@,
        arguments: str_pairs_view(f.arguments@),
        operations: f.operations@.map_values(|o: Operation| o@),
        grid: f.grid,
    }
}

/// The first `n` found functions, each with its body's operations, or the
/// first parse error.
pub open spec fn module_from(fns: Seq<FnText>, n: int) -> Result<Seq<FnView>, Seq<char>>
    decreases n,
{
    if n <= 0 {
        Ok(Seq::empty())
    } else {
        match module_from(fns, n - 1) {
            Err(e) => Err(e),
            Ok(prev) => {
                let f = fns[n - 1];
                let toks = tokenize_spec(f.body);
                match ops_of(toks, toks.len() as int) {
                    Err(e) => Err(e),
                    Ok(ops) => Ok(prev.push(FnView { name: f.name, arguments: f.args, operations: ops, grid: f.grid })),
                }
            },
        }
    }
}

proof fn lemma_module_err_sticks(fns: Seq<FnText>, n: int, m: int)
    requires
        n <= m,
        module_from(fns, n) is Err,
    ensures
        module_from(fns, m) == module_from(fns, n),
    decreases m - n,
{
    if n < m {
        lemma_module_err_sticks(fns, n, m - 1);
    }
}

/// A module's text: comments stripped, its functions found, each body
/// tokenized and parsed.
pub open spec fn module_spec(text: Seq<char>) -> Result<Seq<FnView>, Seq<char>> {
    match funcs_from(strip_spec(text, false), 0) {
        Err(e) => Err(e),
        Ok(fns) => module_from(fns, fns.len() as int),
    }
}

/// Parse a module's MLIR text: every `func.func` with its arguments, grid and
/// straight-line operations (no return type).
pub fn parse_module(text: &str) -> (r: Result<IRModule, String>)
    ensures
        match module_spec(text@) {
            Ok(fs) => r matches Ok(m) && m.functions@.map_values(|f: IRFunction| fn_view(f)) == fs && forall|i: int|
                0 <= i < m.functions@.len() ==> (#[trigger] m.functions@[i]).return_type is None,
            Err(e) => r matches Err(x) && x@ == e,
        },
{
    let src = str_to_chars(text);
    let stripped = strip_comments(&src);
    let fns = find_functions(&stripped)?;
    let ghost fv = fn_texts(fns@);
    let mut module = IRModule::new();
    let mut i: usize = 0;
    assert(module.functions@.map_values(|f: IRFunction| fn_view(f)) =~= Seq::<FnView>::empty());
    while i < fns.len()
        invariant
            0 <= i <= fns@.len(),
            fv == fn_texts(fns@),
            module_spec(text@) == module_from(fv, fv.len() as int),
            module_from(fv, i as int) == Ok::<Seq<FnView>, Seq<char>>(module.functions@.map_values(|f: IRFunction| fn_view(f))),
            forall|k: int|
                0 <= k < module.functions@.len() ==> (#[trigger] module.functions@[k]).return_type is None,
        decreases fns@.len() - i,
    {
        let toks = tokenize_ops(&fns[i].body);
        let ghost tv = cvs(toks@);
        assert(fv[i as int] == fns@[i as int]@);
        let mut operations: Vec<Operation> = Vec::new();
        let mut j: usize = 0;
        assert(operations@.map_values(|o: Operation| o@) =~= Seq::<crate::ir::OpView>::empty());
        while j < toks.len()
            invariant
                0 <= j <= toks@.len(),
                tv == cvs(toks@),
                tv == tokenize_spec(fv[i as int].body),
                i < fns@.len(),
                fv == fn_texts(fns@),
                module_spec(text@) == module_from(fv, fv.len() as int),
                module_from(fv, i as int) is Ok,
                ops_of(tv, j as int) == Ok::<Seq<crate::ir::OpView>, Seq<char>>(operations@.map_values(|o: Operation| o@)),
            decreases toks@.len() - j,
        {
            assert(tv[j as int] == toks@[j as int]@);
            let ghost before = operations@;
            match parse_operation(&toks[j]) {
                Ok(Some(op)) => {
                    operations.push(op);
                    assert(operations@.map_values(|o: Operation| o@) =~= before.map_values(|o: Operation| o@).push(op@));
                },
                Ok(None) => {},
                Err(e) => {
                    proof {
                        lemma_ops_err_sticks(tv, j + 1, tv.len() as int);
                        lemma_module_err_sticks(fv, i + 1, fv.len() as int);
                    }
                    return Err(e);
                },
            }
            j = j + 1;
        }
        let mut arguments: Vec<(String, String)> = Vec::new();
        let mut k: usize = 0;
        assert(str_pairs_view(arguments@) =~= Seq::<(Seq<char>, Seq<char>)>::empty());
        while k < fns[i].args.len()
            invariant
                i < fns@.len(),
                0 <= k <= fns@[i as int].args@.len(),
                str_pairs_view(arguments@) == str_pairs_view(fns@[i as int].args@).subrange(0, k as int),
            decreases fns@[i as int].args@.len() - k,
        {
            let a = &fns[i].args[k];
            let ghost before = arguments@;
            arguments.push((a.0.clone(), a.1.clone()));
            assert(str_pairs_view(arguments@) =~= str_pairs_view(before).push((a.0@, a.1@)));
            assert(str_pairs_view(fns@[i as int].args@)[k as int] == (a.0@, a.1@));
            assert(str_pairs_view(arguments@) =~= str_pairs_view(fns@[i as int].args@).subrange(0, k + 1));
            k = k + 1;
        }
        assert(str_pairs_view(fns@[i as int].args@).subrange(0, fns@[i as int].args@.len() as int) =~= str_pairs_view(
            fns@[i as int].args@,
        ));
        let ghost mv = module.functions@.map_values(|f: IRFunction| fn_view(f));
        let f = IRFunction {
            name: fns[i].name.clone(),
            arguments,
            operations,
            grid: fns[i].grid,
            return_type: None,
        };
        module.add_function(f);
        assert(module.functions@.map_values(|f: IRFunction| fn_view(f)) =~= mv.push(fn_view(f)));
        i = i + 1;
    }
    Ok(module)
}

/// The value a parsed `arith.constant` attribute denotes: an `f32` (via the
/// host's float parser), an `i64` or a `bool`; nothing for other attributes.
pub fn constant_attr_to_value<F: FloatArith>(attr: &Attr, floats: &F) -> (r: Option<Value>)
    ensures
        attr matches Attr::Int(i) ==> r == Some(Value::Scalar(Scalar::I64(*i))),
        attr matches Attr::Bool(b) ==> r == Some(Value::Scalar(Scalar::Bool(*b))),
        attr matches Attr::Float(_) ==> (r is Some ==> (r matches Some(Value::Scalar(Scalar::F32(_))))),
        attr matches Attr::Float(text) ==> exists|lit: &str, p: Option<u32>|
            #[trigger] crate::env::parse_gives(floats, lit, p) && lit@ == text@ && r == (match p {
                Some(bits) => Some(Value::Scalar(Scalar::F32(bits))),
                None => None,
            }),
        !(attr is Int || attr is Bool || attr is Float) ==> r is None,
{
    match attr {
        Attr::Float(text) => {
            let lit = text.as_str();
            let parsed = floats.parse_f32(lit);
            assert(crate::env::parse_gives(floats, lit, parsed) && lit@ == text@);
            match parsed {
                Some(bits) => Some(Value::Scalar(Scalar::F32(bits))),
                None => None,
            }
        },
        Attr::Int(i) => Some(Value::Scalar(Scalar::I64(*i))),
        Attr::Bool(b) => Some(Value::Scalar(Scalar::Bool(*b))),
        _ => None,
    }
}

} // verus!
