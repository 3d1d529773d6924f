//! Which entries of a numbered listing an answer such as `1,3-5` selects.
use vstd::prelude::*;
use crate::text::{replace_char, replace_char_text, same_text, trim_white, trim_white_text};

verus! {

pub open spec fn is_digit(c: char) -> bool {
    '0' <= c && c <= '9'
}

/// How many digits follow from position `i` on.
pub open spec fn digit_run(s: Seq<char>, i: int) -> nat
    decreases s.len() - i,
{
    if 0 <= i < s.len() && is_digit(s[i]) {
        1 + digit_run(s, i + 1)
    } else {
        0
    }
}

/// The value of a string of decimal digits.
pub open spec fn digits_value(s: Seq<char>) -> nat
    decreases s.len(),
{
    if s.len() == 0 {
        0
    } else {
        digits_value(s.drop_last()) * 10 + ((s.last() as nat) - ('0' as nat)) as nat
    }
}

/// The numbers and ranges of `s` from position `i` on, leftmost first: a
/// range `a-b` where two digit runs meet at a `-`, else a single number `n`
/// as the range `n-n`; other characters are skipped.
pub open spec fn selection_tokens(s: Seq<char>, i: int) -> Seq<(nat, nat)>
    decreases s.len() - i,
{
    if i < 0 || i >= s.len() {
        Seq::empty()
    } else {
        let k = digit_run(s, i);
        let j = i + k;
        let e = j + 1 + digit_run(s, j + 1);
        if k == 0 {
            selection_tokens(s, i + 1)
        } else if j < s.len() && s[j] == '-' && digit_run(s, j + 1) > 0 && e <= s.len() {
            seq![(digits_value(s.subrange(i, j)), digits_value(s.subrange(j + 1, e)))]
                + selection_tokens(s, e)
        } else if j <= s.len() {
            let n = digits_value(s.subrange(i, j));
            seq![(n, n)] + selection_tokens(s, j)
        } else {
            Seq::empty()
        }
    }
}

/// Whether a range, given either way round, holds `k`.
pub open spec fn covers(t: (nat, nat), k: nat) -> bool {
    (t.0 <= k && k <= t.1) || (t.1 <= k && k <= t.0)
}

pub open spec fn is_yes(t: Seq<char>) -> bool {
    t == "y"@ || t == "yes"@ || t == "Y"@ || t == "Yes"@
}

/// Whether the answer selects the entry numbered `k` (from 1): every entry
/// for `y`, `yes`, `Y` or `Yes`; else those that a number or range names,
/// spaces ignored.
pub open spec fn selects(answer: Seq<char>, k: nat) -> bool {
    let t = trim_white(answer);
    let toks = selection_tokens(replace_char(t, ' ', Seq::empty()), 0);
    is_yes(t) || exists|i: int| 0 <= i < toks.len() && covers(toks[i], k)
}

proof fn lemma_cap_step(v: nat, d: nat, cap: nat)
    requires
        cap >= 1,
    ensures
        min_nat(min_nat(v, cap) * 10 + d, cap) == min_nat(v * 10 + d, cap),
{
    if v >= cap {
        assert(v * 10 + d >= cap) by (nonlinear_arith)
            requires
                v >= cap,
        ;
        assert(cap * 10 + d >= cap) by (nonlinear_arith)
            requires
                cap >= 1,
        ;
    }
}

pub open spec fn min_nat(a: nat, b: nat) -> nat {
    if a < b {
        a
    } else {
        b
    }
}

/// The value of the digits `s[i..j]`, capped at `cap`.
fn capped_value(s: &str, i: usize, j: usize, cap: usize) -> (r: usize)
    requires
        i <= j <= s@.len(),
        1 <= cap < usize::MAX / 2,
        forall|x: int| i <= x < j ==> is_digit(s@[x]),
    ensures
        r == min_nat(digits_value(s@.subrange(i as int, j as int)), cap as nat),
{
    let mut v: usize = 0;
    let mut x: usize = i;
    assert(s@.subrange(i as int, i as int) =~= Seq::<char>::empty());
    while x < j
        invariant
            i <= x <= j <= s@.len(),
            1 <= cap < usize::MAX / 2,
            forall|y: int| i <= y < j ==> is_digit(s@[y]),
            v == min_nat(digits_value(s@.subrange(i as int, x as int)), cap as nat),
        decreases j - x,
    {
        let c = s.get_char(x);
        let d: usize = ((c as u32) - ('0' as u32)) as usize;
        let ghost prev = digits_value(s@.subrange(i as int, x as int));
        assert(s@.subrange(i as int, x + 1).drop_last() =~= s@.subrange(i as int, x as int));
        assert(digits_value(s@.subrange(i as int, x + 1)) == prev * 10 + d);
        proof {
            lemma_cap_step(prev, d as nat, cap as nat);
        }
        if v >= cap / 10 + 1 {
            assert(v * 10 + d >= cap) by (nonlinear_arith)
                requires
                    v >= cap / 10 + 1,
            ;
            v = cap;
        } else {
            assert(v * 10 + d <= cap + 9) by (nonlinear_arith)
                requires
                    v <= cap / 10,
                    d <= 9,
            ;
            let w = v * 10 + d;
            v = if w < cap {
                w
            } else {
                cap
            };
        }
        x += 1;
    }
    v
}

/// The numbers and ranges of `s`, each bound capped at `cap`.
fn capped_tokens(s: &str, cap: usize) -> (r: Vec<(usize, usize)>)
    requires
        1 <= cap < usize::MAX / 2,
    ensures
        r@.len() == selection_tokens(s@, 0).len(),
        forall|j: int|
            0 <= j < r@.len() ==> #[trigger] r@[j].0 == min_nat(
                selection_tokens(s@, 0)[j].0,
                cap as nat,
            ) && r@[j].1 == min_nat(selection_tokens(s@, 0)[j].1, cap as nat),
{
    let n = s.unicode_len();
    let mut out: Vec<(usize, usize)> = Vec::new();
    let ghost mut done: Seq<(nat, nat)> = Seq::empty();
    let mut i: usize = 0;
    assert(done + selection_tokens(s@, 0) =~= selection_tokens(s@, 0));
    while i < n
        invariant
            n == s@.len(),
            i <= n,
            1 <= cap < usize::MAX / 2,
            done + selection_tokens(s@, i as int) == selection_tokens(s@, 0),
            out@.len() == done.len(),
            forall|j: int|
                0 <= j < out@.len() ==> #[trigger] out@[j].0 == min_nat(done[j].0, cap as nat)
                    && out@[j].1 == min_nat(done[j].1, cap as nat),
        decreases n - i,
    {
        let mut j: usize = i;
        while j < n && is_digit_char(s.get_char(j))
            invariant
                i <= j <= n,
                n == s@.len(),
                forall|x: int| i <= x < j ==> is_digit(s@[x]),
                digit_run(s@, i as int) == (j - i) + digit_run(s@, j as int),
            decreases n - j,
        {
            j += 1;
        }
        assert(digit_run(s@, j as int) == 0);
        if j == i {
            i += 1;
        } else {
            let a = capped_value(s, i, j, cap);
            let ghost av = digits_value(s@.subrange(i as int, j as int));
            let mut e: usize = j;
            if j < n && s.get_char(j) == '-' {
                e = j + 1;
                while e < n && is_digit_char(s.get_char(e))
                    invariant
                        j + 1 <= e <= n,
                        n == s@.len(),
                        forall|x: int| j + 1 <= x < e ==> is_digit(s@[x]),
                        digit_run(s@, j + 1) == (e - (j + 1)) + digit_run(s@, e as int),
                    decreases n - e,
                {
                    e += 1;
                }
                assert(digit_run(s@, e as int) == 0);
                if e == j + 1 {
                    e = j;
                }
            }
            let ghost before = done;
            if e > j {
                let b = capped_value(s, j + 1, e, cap);
                let ghost bv = digits_value(s@.subrange(j + 1, e as int));
                out.push((a, b));
                proof {
                    done = done.push((av, bv));
                    assert(before + selection_tokens(s@, i as int) =~= done + selection_tokens(
                        s@,
                        e as int,
                    ));
                }
                i = e;
            } else {
                out.push((a, a));
                proof {
                    done = done.push((av, av));
                    assert(before + selection_tokens(s@, i as int) =~= done + selection_tokens(
                        s@,
                        j as int,
                    ));
                }
                i = j;
            }
        }
    }
    assert(done + selection_tokens(s@, n as int) =~= done);
    out
}

pub fn is_digit_char(c: char) -> (r: bool)
    ensures
        r == is_digit(c),
{
    '0' <= c && c <= '9'
}

/// Each token of `toks` is the one of `all` at its position, capped at `cap`.
pub open spec fn capped_from(toks: Seq<(usize, usize)>, all: Seq<(nat, nat)>, cap: nat) -> bool {
    &&& toks.len() == all.len()
    &&& forall|j: int|
        0 <= j < toks.len() ==> #[trigger] toks[j].0 == min_nat(all[j].0, cap) && toks[j].1
            == min_nat(all[j].1, cap)
}

/// For each entry numbered 1 to `count`, whether `answer` selects it.
pub fn parse_selection(answer: &str, count: usize) -> (r: Vec<bool>)
    requires
        count < usize::MAX / 2 - 1,
    ensures
        r@.len() == count,
        forall|k: int| 0 <= k < count ==> #[trigger] r@[k] == selects(answer@, (k + 1) as nat),
{
    let t = trim_white_text(answer);
    proof {
        reveal_strlit("y");
        reveal_strlit("yes");
        reveal_strlit("Y");
        reveal_strlit("Yes");
    }
    let yes = same_text(t, "y") || same_text(t, "yes") || same_text(t, "Y") || same_text(
        t,
        "Yes",
    );
    let bare = replace_char_text(t, ' ', "");
    proof {
        reveal_strlit("");
    }
    assert(""@ =~= Seq::<char>::empty());
    let cap = count + 1;
    let bare_str = bare.as_str();
    let toks = capped_tokens(bare_str, cap);
    let ghost all = selection_tokens(bare@, 0);
    assert(bare_str@ == bare@);
    let mut r: Vec<bool> = Vec::new();
    let mut k: usize = 0;
    while k < count
        invariant
            k <= count,
            cap == count + 1,
            r@.len() == k,
            all == selection_tokens(bare@, 0),
            bare@ == replace_char(trim_white(answer@), ' ', Seq::empty()),
            yes == is_yes(trim_white(answer@)),
            toks@.len() == all.len(),
            capped_from(toks@, all, cap as nat),
            forall|x: int| 0 <= x < k ==> #[trigger] r@[x] == selects(answer@, (x + 1) as nat),
        decreases count - k,
    {
        let want = k + 1;
        let mut hit = yes;
        let mut j: usize = 0;
        while j < toks.len() && !hit
            invariant
                j <= toks@.len(),
                want == k + 1,
                k < count,
                cap == count + 1,
                toks@.len() == all.len(),
                capped_from(toks@, all, cap as nat),
                hit ==> (yes || exists|x: int| 0 <= x < all.len() && covers(all[x], want as nat)),
                !hit ==> !yes && forall|x: int|
                    0 <= x < j ==> !covers(#[trigger] all[x], want as nat),
            decreases toks@.len() - j,
        {
            let (a, b) = toks[j];
            if (a <= want && want <= b) || (b <= want && want <= a) {
                assert(covers(all[j as int], want as nat));
                hit = true;
            }
            j += 1;
        }
        r.push(hit);
        assert(r@[k as int] == selects(answer@, want as nat));
        k += 1;
    }
    r
}

} // verus!
