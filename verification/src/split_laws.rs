//! What the line splitter does, read directly: quoted tokens come back
//! without their quotes, and text without quotes splits into the runs of
//! characters between spaces.
use vstd::prelude::*;
use crate::cli::{cuts_inside_char, scan, split_tokens, splittable};

verus! {

/// `start` moved `p` places on.
pub open spec fn shifted(start: Option<int>, p: int) -> Option<int> {
    match start {
        Some(st) => Some(st + p),
        None => None,
    }
}

/// A token being read began before the characters read so far end.
proof fn lemma_scan_start(s: Seq<char>, n: nat)
    ensures
        scan(s, n).1 matches Some(st) ==> 0 <= st < n,
    decreases n,
{
    if n > 0 {
        lemma_scan_start(s, (n - 1) as nat);
    }
}

/// The splitter's state after `n` characters depends on those characters
/// alone.
proof fn lemma_scan_prefix(s: Seq<char>, t: Seq<char>, n: nat)
    requires
        n <= s.len(),
        n <= t.len(),
        forall|i: int| 0 <= i < n ==> s[i] == t[i],
    ensures
        scan(s, n) == scan(t, n),
        splittable(s, n) == splittable(t, n),
    decreases n,
{
    if n > 0 {
        lemma_scan_prefix(s, t, (n - 1) as nat);
        lemma_scan_start(s, (n - 1) as nat);
        let i = n - 1;
        let (tokens, start, quoted) = scan(s, (n - 1) as nat);
        if let Some(st) = start {
            if st + 1 <= i {
                assert(s.subrange(st + 1, i) =~= t.subrange(st + 1, i));
            }
            if 0 <= st <= i {
                assert(s.subrange(st, i) =~= t.subrange(st, i));
            }
        }
    }
}

/// Where the splitter stands between tokens at `p`, the rest goes as if the
/// text began at `p`, its tokens following those read before `p`.
proof fn lemma_scan_shift(s: Seq<char>, p: nat, m: nat)
    requires
        p + m <= s.len(),
        scan(s, p).1 is None,
        !scan(s, p).2,
    ensures
        scan(s, p + m) == (
            scan(s, p).0 + scan(s.skip(p as int), m).0,
            shifted(scan(s.skip(p as int), m).1, p as int),
            scan(s.skip(p as int), m).2,
        ),
        splittable(s, p + m) == (splittable(s, p) && splittable(s.skip(p as int), m)),
    decreases m,
{
    let t = s.skip(p as int);
    if m == 0 {
        assert(scan(s, p).0 + Seq::<Seq<char>>::empty() =~= scan(s, p).0);
    } else {
        lemma_scan_shift(s, p, (m - 1) as nat);
        lemma_scan_start(t, (m - 1) as nat);
        let i = m - 1;
        assert(s[p + i] == t[i]);
        let (tokens, start, quoted) = scan(t, (m - 1) as nat);
        let before = scan(s, p).0;
        if let Some(st) = start {
            assert(s[st + p] == t[st]);
            if st + 1 <= i {
                assert(s.subrange(st + p + 1, p + i) =~= t.subrange(st + 1, i));
            }
            if 0 <= st <= i {
                assert(s.subrange(st + p, p + i) =~= t.subrange(st, i));
            }
            assert(cuts_inside_char(s, shifted(start, p as int)) == cuts_inside_char(t, start));
            assert(before + tokens.push(t.subrange(st + 1, i)) =~= (before + tokens).push(
                t.subrange(st + 1, i),
            ));
            assert(before + tokens.push(t.subrange(st, i)) =~= (before + tokens).push(
                t.subrange(st, i),
            ));
        }
    }
}

/// Where the splitter stands between tokens at `p`, the tokens of `s` are
/// those read before `p` followed by the tokens of the rest.
proof fn lemma_split_from(s: Seq<char>, p: nat)
    requires
        p <= s.len(),
        scan(s, p).1 is None,
        !scan(s, p).2,
    ensures
        split_tokens(s) == scan(s, p).0 + split_tokens(s.skip(p as int)),
        scan(s, s.len()) == (
            scan(s, p).0 + scan(s.skip(p as int), (s.len() - p) as nat).0,
            shifted(scan(s.skip(p as int), (s.len() - p) as nat).1, p as int),
            scan(s.skip(p as int), (s.len() - p) as nat).2,
        ),
        splittable(s, s.len()) == (splittable(s, p) && splittable(
            s.skip(p as int),
            (s.len() - p) as nat,
        )),
{
    let t = s.skip(p as int);
    let m = (s.len() - p) as nat;
    lemma_scan_shift(s, p, m);
    lemma_scan_start(t, m);
    let before = scan(s, p).0;
    let (tokens, start, _) = scan(t, m);
    assert(t.len() == m);
    if let Some(st) = start {
        assert(s.subrange(st + p, s.len() as int) =~= t.subrange(st, t.len() as int));
        assert(before + tokens.push(t.subrange(st, t.len() as int)) =~= (before + tokens).push(
            t.subrange(st, t.len() as int),
        ));
    }
}

/// Does the text hold no double quote?
pub open spec fn quote_free(t: Seq<char>) -> bool {
    forall|i: int| 0 <= i < t.len() ==> t[i] != '"'
}

/// `t` between double quotes.
pub open spec fn quoted(t: Seq<char>) -> Seq<char> {
    seq!['"'] + t + seq!['"']
}

/// The tokens, each between double quotes, joined by single spaces.
pub open spec fn quoted_line(ts: Seq<Seq<char>>) -> Seq<char>
    decreases ts.len(),
{
    if ts.len() == 0 {
        Seq::empty()
    } else if ts.len() == 1 {
        quoted(ts[0])
    } else {
        quoted_line(ts.drop_last()) + seq![' '] + quoted(ts.last())
    }
}

/// Inside an opening quote, the characters of a quote-free text keep the
/// token open.
proof fn lemma_inside_quotes(t: Seq<char>, k: nat)
    requires
        quote_free(t),
        k <= t.len(),
    ensures
        scan(quoted(t), k + 1) == (Seq::<Seq<char>>::empty(), Some(0int), true),
        splittable(quoted(t), k + 1),
    decreases k,
{
    let q = quoted(t);
    if k == 0 {
        assert(scan(q, 0) == (Seq::<Seq<char>>::empty(), None::<int>, false));
        assert(splittable(q, 0));
        assert(q[0] == '"');
    } else {
        lemma_inside_quotes(t, (k - 1) as nat);
        assert(q[k as int] == t[k - 1]);
        assert(q[k as int] != '"');
        assert(!cuts_inside_char(q, Some(0int)) || q[k as int] != '"');
    }
}

/// A quoted quote-free text is read as one token, the text.
proof fn lemma_quoted_token(t: Seq<char>)
    requires
        quote_free(t),
    ensures
        scan(quoted(t), quoted(t).len()) == (seq![t], None::<int>, false),
        splittable(quoted(t), quoted(t).len()),
{
    let q = quoted(t);
    lemma_inside_quotes(t, t.len());
    assert(q[t.len() as int + 1] == '"');
    assert(q.subrange(1, t.len() as int + 1) =~= t);
    assert(Seq::<Seq<char>>::empty().push(t) =~= seq![t]);
}

/// A space, then a quoted quote-free text, is read as one token, the text.
proof fn lemma_space_quoted_token(t: Seq<char>)
    requires
        quote_free(t),
    ensures
        scan(seq![' '] + quoted(t), quoted(t).len() + 1) == (seq![t], None::<int>, false),
        splittable(seq![' '] + quoted(t), quoted(t).len() + 1),
{
    let u = seq![' '] + quoted(t);
    assert(u[0] == ' ');
    assert(scan(u, 0) == (Seq::<Seq<char>>::empty(), None::<int>, false));
    assert(splittable(u, 0));
    assert(scan(u, 1) == (Seq::<Seq<char>>::empty(), None::<int>, false));
    lemma_scan_shift(u, 1, quoted(t).len());
    assert(u.skip(1) =~= quoted(t));
    lemma_quoted_token(t);
    assert(Seq::<Seq<char>>::empty() + seq![t] =~= seq![t]);
}

/// A line of quoted quote-free tokens joined by spaces is read back as
/// those tokens.
proof fn lemma_quoted_line_scan(ts: Seq<Seq<char>>)
    requires
        forall|k: int| 0 <= k < ts.len() ==> quote_free(#[trigger] ts[k]),
    ensures
        scan(quoted_line(ts), quoted_line(ts).len()) == (ts, None::<int>, false),
        splittable(quoted_line(ts), quoted_line(ts).len()),
    decreases ts.len(),
{
    if ts.len() == 0 {
        assert(ts =~= Seq::<Seq<char>>::empty());
    } else if ts.len() == 1 {
        lemma_quoted_token(ts[0]);
        assert(seq![ts[0]] =~= ts);
    } else {
        let init = ts.drop_last();
        let last = ts.last();
        assert(quote_free(last)) by {
            assert(ts[ts.len() - 1] == last);
        }
        assert forall|k: int| 0 <= k < init.len() implies quote_free(#[trigger] init[k]) by {
            assert(init[k] == ts[k]);
        }
        lemma_quoted_line_scan(init);
        let head = quoted_line(init);
        let line = quoted_line(ts);
        let tail = seq![' '] + quoted(last);
        assert(line == head + tail);
        lemma_scan_prefix(head, line, head.len());
        lemma_scan_shift(line, head.len(), tail.len());
        assert(line.skip(head.len() as int) =~= tail);
        lemma_space_quoted_token(last);
        assert(init + seq![last] =~= ts);
    }
}

/// A line of tokens, each between double quotes and holding none, joined by
/// single spaces, can be split, and splits back into those tokens: the
/// quotes go, and spaces and any other characters inside them stay.
pub proof fn law_split_quoted_tokens(ts: Seq<Seq<char>>)
    requires
        forall|k: int| 0 <= k < ts.len() ==> quote_free(#[trigger] ts[k]),
    ensures
        splittable(quoted_line(ts), quoted_line(ts).len()),
        split_tokens(quoted_line(ts)) == ts,
{
    lemma_quoted_line_scan(ts);
}

/// The length of the run of non-spaces that `s` starts with.
pub open spec fn run_len(s: Seq<char>) -> nat
    decreases s.len(),
{
    if s.len() == 0 || s[0] == ' ' {
        0
    } else {
        1 + run_len(s.drop_first())
    }
}

/// The run of non-spaces at the start of `s` is no longer than `s`, holds
/// no space, and, where shorter than `s`, is followed by a space.
proof fn lemma_run_len(s: Seq<char>)
    ensures
        run_len(s) <= s.len(),
        forall|i: int| 0 <= i < run_len(s) ==> s[i] != ' ',
        run_len(s) < s.len() ==> s[run_len(s) as int] == ' ',
    decreases s.len(),
{
    if s.len() > 0 && s[0] != ' ' {
        lemma_run_len(s.drop_first());
        assert forall|i: int| 0 <= i < run_len(s) implies s[i] != ' ' by {
            if i > 0 {
                assert(s[i] == s.drop_first()[i - 1]);
            }
        }
        if run_len(s) < s.len() {
            assert(s[run_len(s) as int] == s.drop_first()[run_len(s) - 1]);
        }
    }
}

/// The maximal runs of non-spaces in `s`, in order: the pieces between
/// spaces, without the empty ones.
pub open spec fn words(s: Seq<char>) -> Seq<Seq<char>>
    decreases s.len(),
{
    let k = run_len(s);
    if k >= s.len() {
        if s.len() == 0 {
            Seq::empty()
        } else {
            seq![s]
        }
    } else {
        let rest = words(s.skip(k as int + 1));
        if k == 0 {
            rest
        } else {
            seq![s.take(k as int)] + rest
        }
    }
}

/// Within the run of non-spaces that a quote-free text starts with, the
/// splitter has one token open, begun at the start.
proof fn lemma_scan_run(s: Seq<char>, m: nat)
    requires
        quote_free(s),
        m <= run_len(s),
    ensures
        scan(s, m) == (Seq::<Seq<char>>::empty(), if m == 0 { None::<int> } else { Some(0int) }, false),
    decreases m,
{
    lemma_run_len(s);
    if m > 0 {
        lemma_scan_run(s, (m - 1) as nat);
        if m == 1 {
            assert(scan(s, 0) == (Seq::<Seq<char>>::empty(), None::<int>, false));
        }
    }
}

/// Text without quotes splits into its maximal runs of non-spaces.
pub proof fn law_split_plain_text_is_words(s: Seq<char>)
    requires
        quote_free(s),
    ensures
        split_tokens(s) == words(s),
    decreases s.len(),
{
    lemma_run_len(s);
    let k = run_len(s);
    lemma_scan_run(s, k);
    if k >= s.len() {
        if s.len() > 0 {
            assert(s.subrange(0, s.len() as int) =~= s);
            assert(Seq::<Seq<char>>::empty().push(s) =~= seq![s]);
        }
    } else {
        let rest = s.skip(k as int + 1);
        let first: Seq<Seq<char>> = if k == 0 { Seq::empty() } else { seq![s.take(k as int)] };
        assert(scan(s, k + 1) == (first, None::<int>, false)) by {
            if k == 0 {
                assert(scan(s, 0) == (Seq::<Seq<char>>::empty(), None::<int>, false));
            } else {
                assert(s.subrange(0, k as int) =~= s.take(k as int));
                assert(Seq::<Seq<char>>::empty().push(s.take(k as int)) =~= first);
            }
        }
        lemma_split_from(s, k + 1);
        assert(quote_free(rest)) by {
            assert forall|i: int| 0 <= i < rest.len() implies rest[i] != '"' by {
                assert(rest[i] == s[i + k + 1]);
            }
        }
        law_split_plain_text_is_words(rest);
        if k == 0 {
            assert(first + words(rest) =~= words(rest));
        }
    }
}

} // verus!
