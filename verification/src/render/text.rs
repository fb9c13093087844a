//! Truncating text to a number of terminal cells.

use crate::parser::text::push_char;
use vstd::prelude::*;
use vstd::std_specs::iter::IteratorSpec;
use vstd::string::StringExecFns;

verus! {

/// The displayed width of `c` in terminal columns as the `unicode-width`
/// crate reckons it, or `None` for a control character.
pub uninterp spec fn unicode_char_width(c: char) -> Option<usize>;

/// The columns `c` takes, a control character counting as none.
pub open spec fn cols(c: char) -> nat {
    match unicode_char_width(c) {
        Some(w) => w as nat,
        None => 0,
    }
}

/// Calls `UnicodeWidthChar::width` of `unicode-width`. Its source answers
/// `None` exactly for the control characters below U+0020 and from U+007F to
/// U+009F, `Some(1)` for the other ASCII characters, and otherwise looks the
/// width up in its tables, which hold no width above 3. Its documentation
/// counts the characters of Unicode's Ambiguous width category as one column;
/// `…` (U+2026) is one of them.
#[verifier::external_body]
fn char_width(c: char) -> (r: Option<usize>)
    ensures
        r == unicode_char_width(c),
        (c as u32) < 0x20 || (0x7F <= (c as u32) < 0xA0) ==> r is None,
        0x20 <= (c as u32) < 0x7F ==> r == Some(1usize),
        c == '…' ==> r == Some(1usize),
        r matches Some(w) ==> w <= 3,
{
    unicode_width::UnicodeWidthChar::width(c)
}

/// The columns that the characters `cs` take together.
pub open spec fn width_of(cs: Seq<char>) -> nat
    decreases cs.len(),
{
    if cs.len() == 0 {
        0
    } else {
        width_of(cs.drop_last()) + cols(cs.last())
    }
}

/// The columns of the ellipsis that marks a truncation.
pub open spec fn ellipsis_cols() -> nat {
    match unicode_char_width('…') {
        Some(w) => w as nat,
        None => 1,
    }
}

/// What is kept of `cs[i..]` in `budget` columns when `used` are taken and
/// `out` is kept so far: characters as long as they fit, the first that does
/// not fit ending it, and zero-width characters kept only after a first kept
/// character.
pub open spec fn keep_fitting(cs: Seq<char>, i: int, used: nat, budget: nat, out: Seq<char>) -> Seq<
    char,
>
    decreases cs.len() - i,
{
    if i < 0 || i >= cs.len() {
        out
    } else if cols(cs[i]) == 0 {
        keep_fitting(cs, i + 1, used, budget, if out.len() > 0 { out.push(cs[i]) } else { out })
    } else if used + cols(cs[i]) > budget {
        out
    } else {
        keep_fitting(cs, i + 1, used + cols(cs[i]), budget, out.push(cs[i]))
    }
}

/// `input` cut down to `max_cells` columns: empty for no column, unchanged
/// when it fits, else what fits before an ellipsis (or the ellipsis alone
/// when nothing else fits).
pub open spec fn spec_truncate(input: Seq<char>, max_cells: nat) -> Seq<char> {
    if max_cells == 0 {
        Seq::empty()
    } else if width_of(input) <= max_cells {
        input
    } else if max_cells <= ellipsis_cols() {
        seq!['…']
    } else {
        keep_fitting(input, 0, 0, (max_cells - ellipsis_cols()) as nat, Seq::empty()).push('…')
    }
}

proof fn lemma_width_push(cs: Seq<char>, c: char)
    ensures
        width_of(cs.push(c)) == width_of(cs) + cols(c),
{
    assert(cs.push(c).drop_last() =~= cs);
}

proof fn lemma_keep_fitting_width(cs: Seq<char>, i: int, used: nat, budget: nat, out: Seq<char>)
    requires
        width_of(out) == used,
        used <= budget,
    ensures
        width_of(keep_fitting(cs, i, used, budget, out)) <= budget,
    decreases cs.len() - i,
{
    if 0 <= i < cs.len() {
        if cols(cs[i]) == 0 {
            let out2 = if out.len() > 0 {
                out.push(cs[i])
            } else {
                out
            };
            lemma_width_push(out, cs[i]);
            lemma_keep_fitting_width(cs, i + 1, used, budget, out2);
        } else if used + cols(cs[i]) <= budget {
            lemma_width_push(out, cs[i]);
            lemma_keep_fitting_width(cs, i + 1, used + cols(cs[i]), budget, out.push(cs[i]));
        }
    }
}

/// A truncated text fits its columns: whenever the ellipsis itself fits (or
/// no column is asked for), the result takes at most `max_cells` columns.
pub proof fn lemma_truncate_fits(input: Seq<char>, max_cells: nat)
    requires
        max_cells == 0 || ellipsis_cols() <= max_cells,
    ensures
        width_of(spec_truncate(input, max_cells)) <= max_cells,
{
    lemma_width_push(Seq::empty(), '…');
    assert(seq!['…'] =~= Seq::<char>::empty().push('…'));
    if max_cells > 0 && width_of(input) > max_cells && max_cells > ellipsis_cols() {
        let budget = (max_cells - ellipsis_cols()) as nat;
        lemma_keep_fitting_width(input, 0, 0, budget, Seq::empty());
        lemma_width_push(keep_fitting(input, 0, 0, budget, Seq::empty()), '…');
    }
}

/// The columns that characters of widths `ws` take together.
pub open spec fn width_in(ws: Seq<usize>) -> nat
    decreases ws.len(),
{
    if ws.len() == 0 {
        0
    } else {
        width_in(ws.drop_last()) + ws.last() as nat
    }
}

/// [`keep_fitting`] with the width of character `k` of `cs` given as `ws[k]`.
pub open spec fn keep_w(cs: Seq<char>, ws: Seq<usize>, i: int, used: nat, budget: nat, out: Seq<char>) -> Seq<
    char,
>
    decreases cs.len() - i,
{
    if i < 0 || i >= cs.len() {
        out
    } else if ws[i] == 0 {
        keep_w(cs, ws, i + 1, used, budget, if out.len() > 0 { out.push(cs[i]) } else { out })
    } else if used + ws[i] > budget {
        out
    } else {
        keep_w(cs, ws, i + 1, used + ws[i] as nat, budget, out.push(cs[i]))
    }
}

/// [`spec_truncate`] with the width of character `k` of `cs` given as
/// `ws[k]` and that of the ellipsis as `ew`.
pub open spec fn truncate_w(cs: Seq<char>, ws: Seq<usize>, ew: nat, max_cells: nat) -> Seq<char> {
    if max_cells == 0 {
        Seq::empty()
    } else if width_in(ws) <= max_cells {
        cs
    } else if max_cells <= ew {
        seq!['…']
    } else {
        keep_w(cs, ws, 0, 0, (max_cells - ew) as nat, Seq::empty()).push('…')
    }
}

/// `ws` gives the columns of each character of `cs`.
pub open spec fn widths_of(cs: Seq<char>, ws: Seq<usize>) -> bool {
    ws.len() == cs.len() && forall|k: int| 0 <= k < cs.len() ==> #[trigger] ws[k] == cols(cs[k])
}

proof fn lemma_width_in(cs: Seq<char>, ws: Seq<usize>)
    requires
        widths_of(cs, ws),
    ensures
        width_in(ws) == width_of(cs),
    decreases cs.len(),
{
    if cs.len() > 0 {
        assert(widths_of(cs.drop_last(), ws.drop_last()));
        lemma_width_in(cs.drop_last(), ws.drop_last());
    }
}

proof fn lemma_keep_w(cs: Seq<char>, ws: Seq<usize>, i: int, used: nat, budget: nat, out: Seq<char>)
    requires
        widths_of(cs, ws),
    ensures
        keep_w(cs, ws, i, used, budget, out) == keep_fitting(cs, i, used, budget, out),
    decreases cs.len() - i,
{
    if 0 <= i < cs.len() {
        if ws[i] == 0 {
            lemma_keep_w(cs, ws, i + 1, used, budget, if out.len() > 0 { out.push(cs[i]) } else { out });
        } else if used + ws[i] <= budget {
            lemma_keep_w(cs, ws, i + 1, used + ws[i] as nat, budget, out.push(cs[i]));
        }
    }
}

/// Truncating by given widths is truncating by the widths `unicode-width`
/// gives, when they are those widths.
pub proof fn lemma_truncate_w(cs: Seq<char>, ws: Seq<usize>, max_cells: nat)
    requires
        widths_of(cs, ws),
    ensures
        truncate_w(cs, ws, ellipsis_cols(), max_cells) == spec_truncate(cs, max_cells),
{
    lemma_width_in(cs, ws);
    if max_cells > ellipsis_cols() {
        lemma_keep_w(cs, ws, 0, 0, (max_cells - ellipsis_cols()) as nat, Seq::empty());
    }
}

proof fn lemma_width_in_prefix(ws: Seq<usize>, k: int)
    requires
        0 <= k <= ws.len(),
    ensures
        width_in(ws.take(k)) <= width_in(ws),
    decreases ws.len() - k,
{
    if k < ws.len() {
        lemma_width_in_prefix(ws, k + 1);
        assert(ws.take(k + 1).drop_last() =~= ws.take(k));
    } else {
        assert(ws.take(k) =~= ws);
    }
}

/// Truncates `input` to at most `max_cells` columns, marking a cut with `…`,
/// given the columns `widths[k]` of each character `k` of `input` and the
/// columns `ellipsis` of the ellipsis.
pub fn truncate_with_widths(input: &str, widths: &Vec<usize>, ellipsis: usize, max_cells: usize) -> (r: String)
    requires
        widths@.len() == input@.len(),
    ensures
        r@ == truncate_w(input@, widths@, ellipsis as nat, max_cells as nat),
{
    if max_cells == 0 {
        return String::new();
    }
    // Add up the columns, stopping as soon as they exceed the limit.
    let ghost all = input@;
    let ghost ws = widths@;
    let mut k: usize = 0;
    let mut total: usize = 0;
    let mut fits = true;
    assert(ws.take(ws.len() as int) =~= ws);
    while k < widths.len()
        invariant_except_break
            k <= ws.len(),
            ws == widths@,
            ws.take(ws.len() as int) == ws,
            total == width_in(ws.take(k as int)),
            total <= max_cells,
            fits,
        ensures
            fits == (width_in(ws) <= max_cells),
        decreases ws.len() - k,
    {
        let w = widths[k];
        proof {
            assert(ws.take(k + 1).drop_last() =~= ws.take(k as int));
        }
        if w > max_cells - total {
            proof {
                lemma_width_in_prefix(ws, k + 1);
            }
            fits = false;
            break;
        }
        total = total + w;
        k = k + 1;
    }
    proof {
        if fits {
            assert(ws.take(ws.len() as int) =~= ws);
        }
    }
    if fits {
        return input.to_owned();
    }
    if max_cells <= ellipsis {
        let mut e = String::new();
        e.append("…");
        proof {
            reveal_strlit("…");
        }
        assert(e@ =~= seq!['…']);
        return e;
    }
    let budget = max_cells - ellipsis;
    let mut out = String::new();
    let mut used: usize = 0;
    let mut started = false;
    let mut it2 = input.chars();
    let ghost mut m: int = 0;
    let mut idx: usize = 0;
    assert(widths.len() == widths@.len());
    assert(it2.remaining() == all);
    assert(out@ =~= Seq::<char>::empty());
    loop
        invariant_except_break
            0 <= m <= all.len(),
            idx == m,
            it2.remaining() == all.skip(m),
            used <= budget,
            started == (out@.len() > 0),
            keep_w(all, ws, 0, 0, budget as nat, Seq::empty()) == keep_w(
                all,
                ws,
                m,
                used as nat,
                budget as nat,
                out@,
            ),
        invariant
            all == input@,
            ws == widths@,
            ws.len() == all.len(),
            widths@.len() <= usize::MAX,
        ensures
            keep_w(all, ws, 0, 0, budget as nat, Seq::empty()) == out@,
        decreases all.len() - m,
    {
        match it2.next() {
            Some(c) => {
                assert(c == all[m]);
                proof {
                    assert(all.skip(m).drop_first() =~= all.skip(m + 1));
                }
                let w = widths[idx];
                if w == 0 {
                    if started {
                        push_char(&mut out, c);
                    }
                } else {
                    if w > budget - used {
                        break;
                    }
                    push_char(&mut out, c);
                    started = true;
                    used = used + w;
                }
                idx = idx + 1;
                proof {
                    m = m + 1;
                }
            },
            None => {
                assert(all.skip(m).len() == 0);
                break;
            },
        }
    }
    push_char(&mut out, '…');
    out
}

/// Truncates `input` to at most `max_cells` columns, marking a cut with `…`.
pub fn truncate_to_width(input: &str, max_cells: usize) -> (r: String)
    ensures
        r@ == spec_truncate(input@, max_cells as nat),
        // A truncated text always fits its columns.
        width_of(r@) <= max_cells,
{
    // The columns of each character, then of the ellipsis.
    let ghost all = input@;
    let mut widths: Vec<usize> = Vec::new();
    let mut it = input.chars();
    let ghost mut n: int = 0;
    assert(it.remaining() == all);
    loop
        invariant_except_break
            0 <= n <= all.len(),
            it.remaining() == all.skip(n),
            widths@.len() == n,
            forall|j: int| 0 <= j < n ==> #[trigger] widths@[j] == cols(all[j]),
        invariant
            all == input@,
        ensures
            widths_of(all, widths@),
        decreases all.len() - n,
    {
        match it.next() {
            Some(c) => {
                assert(c == all[n]);
                proof {
                    assert(all.skip(n).drop_first() =~= all.skip(n + 1));
                }
                let w = match char_width(c) {
                    Some(w) => w,
                    None => 0,
                };
                widths.push(w);
                proof {
                    n = n + 1;
                }
            },
            None => {
                assert(all.skip(n).len() == 0);
                break;
            },
        }
    }
    let ew: usize = match char_width('…') {
        Some(w) => w,
        None => 1,
    };
    proof {
        lemma_truncate_w(all, widths@, max_cells as nat);
        lemma_truncate_fits(input@, max_cells as nat);
    }
    truncate_with_widths(input, &widths, ew, max_cells)
}

/// The columns of a prefix never exceed those of the whole.
proof fn lemma_width_prefix(cs: Seq<char>, k: int)
    requires
        0 <= k <= cs.len(),
    ensures
        width_of(cs.take(k)) <= width_of(cs),
    decreases cs.len() - k,
{
    if k < cs.len() {
        lemma_width_prefix(cs, k + 1);
        assert(cs.take(k + 1) =~= cs.take(k).push(cs[k]));
        lemma_width_push(cs.take(k), cs[k]);
    } else {
        assert(cs.take(k) =~= cs);
    }
}


/// The character of decimal digit `d`.
pub open spec fn digit_char(d: nat) -> char {
    (48 + d) as char
}

/// The decimal digits of `n`, without leading zeros.
pub open spec fn decimal_chars(n: nat) -> Seq<char>
    decreases n,
{
    if n < 10 {
        seq![digit_char(n)]
    } else {
        decimal_chars(n / 10).push(digit_char(n % 10))
    }
}

/// `n` written in decimal.
pub fn decimal(n: usize) -> (s: String)
    ensures
        s@ == decimal_chars(n as nat),
    decreases n,
{
    let mut s = if n < 10 {
        String::new()
    } else {
        decimal(n / 10)
    };
    let d = (n % 10) as u8;
    push_char(&mut s, (48u8 + d) as char);
    proof {
        assert((48u8 + d) as char == digit_char((n % 10) as nat));
        if n < 10 {
            assert(s@ =~= seq![digit_char(n as nat)]);
        }
    }
    s
}

} // verus!
