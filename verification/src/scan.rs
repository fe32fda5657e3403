//! The substitution scanner: a single left-to-right pass over a template's
//! characters that replaces each delimiter-bounded tag with its context
//! value, with explicit detection of blank templates, lone delimiter
//! characters, overlapping (nested) tags, unclosed tags and unresolved keys.

use vstd::prelude::*;

verus! {

use crate::chars::all_whitespace;
use crate::context::Context;

/// `pat` occurs in `t` at position `i`.
pub open spec fn match_at(t: Seq<char>, pat: Seq<char>, i: int) -> bool {
    0 <= i && i + pat.len() <= t.len() && t.subrange(i, i + pat.len()) == pat
}

/// The first position at or after `from` where `pat` occurs in `t`.
pub open spec fn find_from(t: Seq<char>, pat: Seq<char>, from: int) -> Option<int>
    decreases t.len() - from + 1,
{
    if from + pat.len() > t.len() {
        None
    } else if match_at(t, pat, from) {
        Some(from)
    } else {
        find_from(t, pat, from + 1)
    }
}

/// A found position is a match and lies at or after the search start.
pub proof fn lemma_find_from_some(t: Seq<char>, pat: Seq<char>, from: int, i: int)
    requires
        find_from(t, pat, from) == Some(i),
    ensures
        from <= i,
        match_at(t, pat, i),
    decreases t.len() - from + 1,
{
    if from + pat.len() > t.len() {
    } else if match_at(t, pat, from) {
    } else {
        lemma_find_from_some(t, pat, from + 1, i);
    }
}

/// `pat` occurs somewhere in `t`.
pub open spec fn contains_seq(t: Seq<char>, pat: Seq<char>) -> bool {
    find_from(t, pat, 0) is Some
}

/// The character `c` occurs in `t`.
pub open spec fn contains_char(t: Seq<char>, c: char) -> bool {
    exists|i: int| 0 <= i < t.len() && t[i] == c
}

/// What one rendering pass produces: the rendered text, or the reason the
/// template was rejected.
pub enum ScanOutcome {
    /// The fully substituted text.
    Rendered(Seq<char>),
    /// The template is empty or holds only white space.
    EmptyTemplate,
    /// The first character of the open delimiter occurs, but the full open
    /// delimiter never does.
    LoneDelimiter,
    /// An open delimiter occurrence falls inside the span of an earlier tag.
    Nested,
    /// An open delimiter with no close delimiter after it.
    Unclosed,
    /// A tag key that the context does not hold.
    Unresolved(Seq<char>),
}

/// The scan from the open-delimiter search position `pos`, with everything
/// before `last_end` already committed to `acc`. Open-delimiter occurrences
/// are enumerated without overlap, as a left-to-right search; the key of a
/// tag is the text strictly between its delimiters, matched against the
/// context exactly.
pub open spec fn scan_from(
    t: Seq<char>,
    ctx: Map<Seq<char>, Seq<char>>,
    od: Seq<char>,
    cd: Seq<char>,
    pos: int,
    last_end: int,
    acc: Seq<char>,
) -> ScanOutcome
    decreases t.len() - pos
        when od.len() > 0 && 0 <= pos <= t.len() && 0 <= last_end <= t.len()
        via scan_from_decreases
{
    match find_from(t, od, pos) {
        None => ScanOutcome::Rendered(acc + t.subrange(last_end, t.len() as int)),
        Some(idx) => {
            if idx < last_end {
                ScanOutcome::Nested
            } else {
                match find_from(t, cd, idx + od.len()) {
                    None => ScanOutcome::Unclosed,
                    Some(c) => {
                        let key = t.subrange(idx + od.len(), c);
                        if ctx.contains_key(key) {
                            scan_from(
                                t,
                                ctx,
                                od,
                                cd,
                                idx + od.len(),
                                c + cd.len(),
                                acc + t.subrange(last_end, idx) + ctx[key],
                            )
                        } else {
                            ScanOutcome::Unresolved(key)
                        }
                    },
                }
            }
        },
    }
}

#[via_fn]
proof fn scan_from_decreases(
    t: Seq<char>,
    ctx: Map<Seq<char>, Seq<char>>,
    od: Seq<char>,
    cd: Seq<char>,
    pos: int,
    last_end: int,
    acc: Seq<char>,
) {
    if od.len() > 0 && 0 <= pos <= t.len() && 0 <= last_end <= t.len() {
        match find_from(t, od, pos) {
            Some(idx) => {
                lemma_find_from_some(t, od, pos, idx);
                match find_from(t, cd, idx + od.len()) {
                    Some(c) => {
                        lemma_find_from_some(t, cd, idx + od.len(), c);
                    },
                    None => {},
                }
            },
            None => {},
        }
    }
}

/// The outcome of rendering template `t` against context `ctx` with the
/// delimiters `od` and `cd`: a blank template is rejected first, then a
/// template whose text holds the open delimiter's first character but never
/// the full open delimiter, and otherwise the scan runs from the start.
pub open spec fn render_spec(
    t: Seq<char>,
    ctx: Map<Seq<char>, Seq<char>>,
    od: Seq<char>,
    cd: Seq<char>,
) -> ScanOutcome
    recommends
        od.len() > 0,
        cd.len() > 0,
{
    if all_whitespace(t) {
        ScanOutcome::EmptyTemplate
    } else if contains_char(t, od[0]) && !contains_seq(t, od) {
        ScanOutcome::LoneDelimiter
    } else {
        scan_from(t, ctx, od, cd, 0, 0, Seq::<char>::empty())
    }
}

/// The tag keys of a template in scan order, when its tags are well formed;
/// absent when the scan would run into overlapping or unclosed tags. This
/// depends on the template and delimiters alone, not on any context.
pub open spec fn scan_tags(
    t: Seq<char>,
    od: Seq<char>,
    cd: Seq<char>,
    pos: int,
    last_end: int,
) -> Option<Seq<Seq<char>>>
    decreases t.len() - pos
        when od.len() > 0 && 0 <= pos <= t.len() && 0 <= last_end <= t.len()
        via scan_tags_decreases
{
    match find_from(t, od, pos) {
        None => Some(Seq::empty()),
        Some(idx) => {
            if idx < last_end {
                None
            } else {
                match find_from(t, cd, idx + od.len()) {
                    None => None,
                    Some(c) => {
                        match scan_tags(t, od, cd, idx + od.len(), c + cd.len()) {
                            None => None,
                            Some(rest) => Some(seq![t.subrange(idx + od.len(), c)] + rest),
                        }
                    },
                }
            }
        },
    }
}

#[via_fn]
proof fn scan_tags_decreases(t: Seq<char>, od: Seq<char>, cd: Seq<char>, pos: int, last_end: int) {
    if od.len() > 0 && 0 <= pos <= t.len() && 0 <= last_end <= t.len() {
        match find_from(t, od, pos) {
            Some(idx) => {
                lemma_find_from_some(t, od, pos, idx);
                match find_from(t, cd, idx + od.len()) {
                    Some(c) => {
                        lemma_find_from_some(t, cd, idx + od.len(), c);
                    },
                    None => {},
                }
            },
            None => {},
        }
    }
}

/// The length of the literal text outside tags, from the scan state on;
/// meaningful when `scan_tags` is present for the same state.
pub open spec fn literal_len(
    t: Seq<char>,
    od: Seq<char>,
    cd: Seq<char>,
    pos: int,
    last_end: int,
) -> int
    decreases t.len() - pos
        when od.len() > 0 && 0 <= pos <= t.len() && 0 <= last_end <= t.len()
        via literal_len_decreases
{
    match find_from(t, od, pos) {
        None => t.len() - last_end,
        Some(idx) => {
            if idx < last_end {
                0
            } else {
                match find_from(t, cd, idx + od.len()) {
                    None => 0,
                    Some(c) => (idx - last_end) + literal_len(
                        t,
                        od,
                        cd,
                        idx + od.len(),
                        c + cd.len(),
                    ),
                }
            }
        },
    }
}

#[via_fn]
proof fn literal_len_decreases(t: Seq<char>, od: Seq<char>, cd: Seq<char>, pos: int, last_end: int) {
    if od.len() > 0 && 0 <= pos <= t.len() && 0 <= last_end <= t.len() {
        match find_from(t, od, pos) {
            Some(idx) => {
                lemma_find_from_some(t, od, pos, idx);
                match find_from(t, cd, idx + od.len()) {
                    Some(c) => {
                        lemma_find_from_some(t, cd, idx + od.len(), c);
                    },
                    None => {},
                }
            },
            None => {},
        }
    }
}

/// The summed length of the context values for the given keys.
pub open spec fn values_len(keys: Seq<Seq<char>>, ctx: Map<Seq<char>, Seq<char>>) -> int
    decreases keys.len(),
{
    if keys.len() == 0 {
        0
    } else {
        ctx[keys[0]].len() + values_len(keys.drop_first(), ctx)
    }
}

proof fn lemma_scan_complete(
    t: Seq<char>,
    ctx: Map<Seq<char>, Seq<char>>,
    od: Seq<char>,
    cd: Seq<char>,
    pos: int,
    last_end: int,
    acc: Seq<char>,
)
    requires
        od.len() > 0,
        0 <= pos <= t.len(),
        0 <= last_end <= t.len(),
        scan_tags(t, od, cd, pos, last_end) is Some,
        forall|i: int|
            0 <= i < scan_tags(t, od, cd, pos, last_end)->0.len() ==> ctx.contains_key(
                #[trigger] scan_tags(t, od, cd, pos, last_end)->0[i],
            ),
    ensures
        scan_from(t, ctx, od, cd, pos, last_end, acc) matches ScanOutcome::Rendered(out)
            && out.len() == acc.len() + literal_len(t, od, cd, pos, last_end) + values_len(
            scan_tags(t, od, cd, pos, last_end)->0,
            ctx,
        ),
    decreases t.len() - pos,
{
    let keys = scan_tags(t, od, cd, pos, last_end)->0;
    match find_from(t, od, pos) {
        None => {
            assert(keys =~= Seq::<Seq<char>>::empty());
        },
        Some(idx) => {
            lemma_find_from_some(t, od, pos, idx);
            assert(idx >= last_end);
            let c = find_from(t, cd, idx + od.len())->0;
            lemma_find_from_some(t, cd, idx + od.len(), c);
            let key = t.subrange(idx + od.len(), c);
            let rest = scan_tags(t, od, cd, idx + od.len(), c + cd.len())->0;
            assert(keys == seq![key] + rest);
            assert(keys[0] == key);
            assert(ctx.contains_key(key));
            assert(forall|i: int|
                0 <= i < rest.len() ==> ctx.contains_key(#[trigger] rest[i])) by {
                assert(forall|i: int|
                    0 <= i < rest.len() ==> rest[i] == (seq![key] + rest)[i + 1]);
            }
            let acc2 = acc + t.subrange(last_end, idx) + ctx[key];
            lemma_scan_complete(t, ctx, od, cd, idx + od.len(), c + cd.len(), acc2);
            assert(keys.drop_first() =~= rest);
        },
    }
}

/// For every context and every well-formed template whose tag keys the
/// context all holds, rendering succeeds, and the output length is the
/// length of the literal text plus the summed lengths of the substituted
/// values. Well-formed means: not blank, no lone open-delimiter character,
/// and every tag closed and non-overlapping (`scan_tags` is present).
pub proof fn lemma_render_complete(
    t: Seq<char>,
    ctx: Map<Seq<char>, Seq<char>>,
    od: Seq<char>,
    cd: Seq<char>,
)
    requires
        od.len() > 0,
        cd.len() > 0,
        !all_whitespace(t),
        contains_char(t, od[0]) ==> contains_seq(t, od),
        scan_tags(t, od, cd, 0, 0) is Some,
        forall|i: int|
            0 <= i < scan_tags(t, od, cd, 0, 0)->0.len() ==> ctx.contains_key(
                #[trigger] scan_tags(t, od, cd, 0, 0)->0[i],
            ),
    ensures
        render_spec(t, ctx, od, cd) matches ScanOutcome::Rendered(out) && out.len() == literal_len(
            t,
            od,
            cd,
            0,
            0,
        ) + values_len(scan_tags(t, od, cd, 0, 0)->0, ctx),
{
    lemma_scan_complete(t, ctx, od, cd, 0, 0, Seq::<char>::empty());
}

/// Rendering is deterministic: the outcome is a function of the template,
/// the context and the delimiters alone, so two renderings of the same
/// input agree, output and error kind alike.
pub proof fn lemma_render_deterministic(
    t: Seq<char>,
    ctx: Map<Seq<char>, Seq<char>>,
    od: Seq<char>,
    cd: Seq<char>,
    r1: ScanOutcome,
    r2: ScanOutcome,
)
    requires
        r1 == render_spec(t, ctx, od, cd),
        r2 == render_spec(t, ctx, od, cd),
    ensures
        r1 == r2,
{
}

/// The reasons a scan can fail, as returned by the scanner.
pub enum ScanError {
    /// The template is empty or holds only white space.
    EmptyTemplate,
    /// The first character of the open delimiter occurs alone.
    LoneDelimiter(char),
    /// Overlapping tags.
    Nested,
    /// An open delimiter with no close delimiter after it.
    Unclosed,
    /// A key absent from the context.
    Unresolved(Vec<char>),
}

/// Whether `pat` occurs in `t` at position `i`.
pub(crate) fn match_at_exec(t: &Vec<char>, pat: &Vec<char>, i: usize) -> (r: bool)
    requires
        i + pat@.len() <= t@.len(),
    ensures
        r == match_at(t@, pat@, i as int),
{
    proof {
        assert(t.len() == t@.len());
    }
    let mut j: usize = 0;
    while j < pat.len()
        invariant
            t@.len() <= usize::MAX,
            i + pat@.len() <= t@.len(),
            0 <= j <= pat@.len(),
            forall|k: int| 0 <= k < j ==> t@[i + k] == pat@[k],
        decreases pat@.len() - j,
    {
        if t[i + j] != pat[j] {
            proof {
                if match_at(t@, pat@, i as int) {
                    assert(t@.subrange(i as int, i + pat@.len())[j as int] == t@[i + j]);
                }
            }
            return false;
        }
        j = j + 1;
    }
    proof {
        assert(t@.subrange(i as int, i + pat@.len()) =~= pat@);
    }
    true
}

/// The first position at or after `from` where `pat` occurs in `t`.
fn find_from_exec(t: &Vec<char>, pat: &Vec<char>, from: usize) -> (r: Option<usize>)
    ensures
        match r {
            Some(i) => {
                &&& from <= i
                &&& i + pat@.len() <= t@.len()
                &&& match_at(t@, pat@, i as int)
                &&& find_from(t@, pat@, from as int) == Some(i as int)
            },
            None => find_from(t@, pat@, from as int) is None,
        },
{
    if pat.len() > t.len() {
        proof {
            assert(find_from(t@, pat@, from as int) is None);
        }
        return None;
    }
    if pat.len() == 0 {
        if from <= t.len() {
            proof {
                assert(t@.subrange(from as int, from as int) =~= pat@);
            }
            return Some(from);
        } else {
            return None;
        }
    }
    let mut i: usize = from;
    if i > t.len() - pat.len() {
        return None;
    }
    while i <= t.len() - pat.len()
        invariant
            t@.len() <= usize::MAX,
            1 <= pat@.len() <= t@.len(),
            from <= i,
            i <= t@.len() + 1 - pat@.len(),
            find_from(t@, pat@, from as int) == find_from(t@, pat@, i as int),
        decreases t@.len() + 1 - i,
    {
        if match_at_exec(t, pat, i) {
            return Some(i);
        }
        i = i + 1;
    }
    None
}

/// Whether the character `c` occurs in `t`.
fn contains_char_exec(t: &Vec<char>, c: char) -> (r: bool)
    ensures
        r == contains_char(t@, c),
{
    let mut i: usize = 0;
    while i < t.len()
        invariant
            0 <= i <= t@.len(),
            forall|j: int| 0 <= j < i ==> t@[j] != c,
        decreases t@.len() - i,
    {
        if t[i] == c {
            return true;
        }
        i = i + 1;
    }
    false
}

/// The characters `t[from..to]` as a fresh vector.
fn sub_vec(t: &Vec<char>, from: usize, to: usize) -> (v: Vec<char>)
    requires
        from <= to <= t@.len(),
    ensures
        v@ == t@.subrange(from as int, to as int),
{
    let mut v: Vec<char> = Vec::new();
    crate::chars::push_range(&mut v, t, from, to);
    proof {
        assert(v@ =~= t@.subrange(from as int, to as int));
    }
    v
}

/// Runs one rendering pass of `t` against `ctx`, with open delimiter `od`
/// and close delimiter `cd`. Returns the substituted text, or the scan error
/// that `render_spec` assigns to this input.
pub fn scan_chars(t: &Vec<char>, ctx: &Context, od: &Vec<char>, cd: &Vec<char>) -> (r: Result<
    Vec<char>,
    ScanError,
>)
    requires
        od@.len() > 0,
        cd@.len() > 0,
        ctx.wf(),
    ensures
        match render_spec(t@, ctx@, od@, cd@) {
            ScanOutcome::Rendered(s) => r matches Ok(v) && v@ == s,
            ScanOutcome::EmptyTemplate => r == Err::<Vec<char>, ScanError>(
                ScanError::EmptyTemplate,
            ),
            ScanOutcome::LoneDelimiter => r == Err::<Vec<char>, ScanError>(
                ScanError::LoneDelimiter(od@[0]),
            ),
            ScanOutcome::Nested => r == Err::<Vec<char>, ScanError>(ScanError::Nested),
            ScanOutcome::Unclosed => r == Err::<Vec<char>, ScanError>(ScanError::Unclosed),
            ScanOutcome::Unresolved(k) => r matches Err(ScanError::Unresolved(kv)) && kv@ == k,
        },
{
    if crate::chars::all_space(t) {
        return Err(ScanError::EmptyTemplate);
    }
    let first = od[0];
    if contains_char_exec(t, first) {
        if find_from_exec(t, od, 0).is_none() {
            return Err(ScanError::LoneDelimiter(first));
        }
    }
    proof {
        assert(t.len() == t@.len());
    }
    let ghost goal = scan_from(t@, ctx@, od@, cd@, 0, 0, Seq::<char>::empty());
    assert(render_spec(t@, ctx@, od@, cd@) == goal);
    let mut out: Vec<char> = Vec::new();
    let mut pos: usize = 0;
    let mut last_end: usize = 0;
    proof {
        assert(out@ =~= Seq::<char>::empty());
    }
    loop
        invariant
            t@.len() <= usize::MAX,
            od@.len() > 0,
            cd@.len() > 0,
            ctx.wf(),
            0 <= pos <= t@.len(),
            0 <= last_end <= t@.len(),
            scan_from(t@, ctx@, od@, cd@, pos as int, last_end as int, out@) == goal,
            render_spec(t@, ctx@, od@, cd@) == goal,
        decreases t@.len() - pos,
    {
        match find_from_exec(t, od, pos) {
            None => {
                crate::chars::push_range(&mut out, t, last_end, t.len());
                assert(goal == ScanOutcome::Rendered(out@));
                return Ok(out);
            },
            Some(idx) => {
                if idx < last_end {
                    assert(goal == ScanOutcome::Nested);
                    return Err(ScanError::Nested);
                }
                let key_start = idx + od.len();
                match find_from_exec(t, cd, key_start) {
                    None => {
                        assert(goal == ScanOutcome::Unclosed);
                        return Err(ScanError::Unclosed);
                    },
                    Some(close) => {
                        let key = sub_vec(t, key_start, close);
                        let key_string = crate::chars::chars_to_string(key);
                        match ctx.get(key_string.as_str()) {
                            Some(value) => {
                                crate::chars::push_range(&mut out, t, last_end, idx);
                                crate::chars::push_str_chars(&mut out, value.as_str());
                                pos = key_start;
                                last_end = close + cd.len();
                                proof {
                                    assert(scan_from(
                                        t@,
                                        ctx@,
                                        od@,
                                        cd@,
                                        pos as int,
                                        last_end as int,
                                        out@,
                                    ) == goal);
                                }
                            },
                            None => {
                                let ghost k = t@.subrange(key_start as int, close as int);
                                assert(goal == ScanOutcome::Unresolved(k));
                                return Err(ScanError::Unresolved(sub_vec(t, key_start, close)));
                            },
                        }
                    },
                }
            },
        }
    }
}

} // verus!
