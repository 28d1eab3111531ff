//! Text handling for retrieval: tokenisation and edit distance.
use vstd::prelude::*;

verus! {

// ---------------------------------------------------------------------------
// Outside functions (std)
// ---------------------------------------------------------------------------

/// Whether `char::is_alphanumeric` holds of `c` (the Unicode `Alphabetic` or
/// `Numeric` property).
pub uninterp spec fn is_alphanumeric(c: char) -> bool;

/// What `str::to_lowercase` makes of a string (Unicode lower-case mapping).
pub uninterp spec fn lowercase(s: Seq<char>) -> Seq<char>;

/// `char::is_alphanumeric`; on ASCII it holds of the letters and the digits.
#[verifier::external_body]
fn char_is_alphanumeric(c: char) -> (b: bool)
    ensures
        b == is_alphanumeric(c),
        (c as u32) < 128 ==> (b == is_ascii_alnum(c)),
{
    c.is_alphanumeric()
}

/// `str::to_lowercase`; on ASCII text it makes the capitals small and keeps
/// every other character.
#[verifier::external_body]
pub(crate) fn str_to_lowercase(s: &str) -> (r: String)
    ensures
        r@ == lowercase(s@),
        is_ascii_text(s@) ==> lowered_from(r@, s@),
{
    s.to_lowercase()
}

// ---------------------------------------------------------------------------
// Characters
// ---------------------------------------------------------------------------

/// The characters of a string.
pub fn chars_of(s: &str) -> (v: Vec<char>)
    ensures
        v@ == s@,
{
    let mut v: Vec<char> = Vec::new();
    for c in it: s.chars()
        invariant
            v@ == it.seq().take(it.index() as int),
    {
        v.push(c);
    }
    v
}

// ---------------------------------------------------------------------------
// Numbers
// ---------------------------------------------------------------------------

/// The character of a decimal digit.
pub open spec fn digit_char(d: nat) -> char {
    if d == 0 {
        '0'
    } else if d == 1 {
        '1'
    } else if d == 2 {
        '2'
    } else if d == 3 {
        '3'
    } else if d == 4 {
        '4'
    } else if d == 5 {
        '5'
    } else if d == 6 {
        '6'
    } else if d == 7 {
        '7'
    } else if d == 8 {
        '8'
    } else {
        '9'
    }
}

/// The decimal form of a number, as `Display` writes it: no leading zeros.
pub open spec fn decimal(n: nat) -> Seq<char>
    decreases n,
{
    if n < 10 {
        seq![digit_char(n)]
    } else {
        decimal(n / 10).push(digit_char(n % 10))
    }
}

fn digit_text(d: usize) -> (t: &'static str)
    requires
        d < 10,
    ensures
        t@ == seq![digit_char(d as nat)],
{
    proof {
        reveal_strlit("0");
        reveal_strlit("1");
        reveal_strlit("2");
        reveal_strlit("3");
        reveal_strlit("4");
        reveal_strlit("5");
        reveal_strlit("6");
        reveal_strlit("7");
        reveal_strlit("8");
        reveal_strlit("9");
    }
    let t = if d == 0 {
        "0"
    } else if d == 1 {
        "1"
    } else if d == 2 {
        "2"
    } else if d == 3 {
        "3"
    } else if d == 4 {
        "4"
    } else if d == 5 {
        "5"
    } else if d == 6 {
        "6"
    } else if d == 7 {
        "7"
    } else if d == 8 {
        "8"
    } else {
        "9"
    };
    assert(t@ =~= seq![digit_char(d as nat)]);
    t
}

/// Appends the decimal form of `n`.
pub fn append_decimal(s: &mut String, n: usize)
    ensures
        final(s)@ == old(s)@ + decimal(n as nat),
    decreases n,
{
    if n >= 10 {
        append_decimal(s, n / 10);
    }
    s.append(digit_text(n % 10));
    assert(old(s)@ + decimal(n as nat) =~= if n >= 10 {
        old(s)@ + decimal((n / 10) as nat) + seq![digit_char((n % 10) as nat)]
    } else {
        old(s)@ + seq![digit_char(n as nat)]
    });
}

// ---------------------------------------------------------------------------
// White space
// ---------------------------------------------------------------------------

/// The Unicode `White_Space` property, which `char::is_whitespace` tests.
pub open spec fn is_white_space(c: char) -> bool {
    let u = c as u32;
    ||| 0x09 <= u <= 0x0d
    ||| u == 0x20
    ||| u == 0x85
    ||| u == 0xa0
    ||| u == 0x1680
    ||| 0x2000 <= u <= 0x200a
    ||| u == 0x2028
    ||| u == 0x2029
    ||| u == 0x202f
    ||| u == 0x205f
    ||| u == 0x3000
}

/// `s` without its leading white space.
pub open spec fn trim_start(s: Seq<char>) -> Seq<char>
    decreases s.len(),
{
    if s.len() > 0 && is_white_space(s[0]) {
        trim_start(s.drop_first())
    } else {
        s
    }
}

/// `s` without its trailing white space.
pub open spec fn trim_end(s: Seq<char>) -> Seq<char>
    decreases s.len(),
{
    if s.len() > 0 && is_white_space(s.last()) {
        trim_end(s.drop_last())
    } else {
        s
    }
}

/// What `str::trim` leaves of a text: the text without its leading and trailing
/// white space.
pub open spec fn trimmed(s: Seq<char>) -> Seq<char> {
    trim_end(trim_start(s))
}

fn white_space(c: char) -> (b: bool)
    ensures
        b == is_white_space(c),
{
    let u = c as u32;
    (0x09 <= u && u <= 0x0d) || u == 0x20 || u == 0x85 || u == 0xa0 || u == 0x1680 || (0x2000 <= u
        && u <= 0x200a) || u == 0x2028 || u == 0x2029 || u == 0x202f || u == 0x205f || u == 0x3000
}

proof fn lemma_trim_start(s: Seq<char>, lo: int)
    requires
        0 <= lo <= s.len(),
        forall|i: int| 0 <= i < lo ==> is_white_space(#[trigger] s[i]),
        lo == s.len() || !is_white_space(s[lo]),
    ensures
        trim_start(s) == s.skip(lo),
    decreases lo,
{
    if lo == 0 {
        assert(s.skip(0) =~= s);
    } else {
        let d = s.drop_first();
        assert forall|i: int| 0 <= i < lo - 1 implies is_white_space(#[trigger] d[i]) by {
            assert(d[i] == s[i + 1]);
        }
        assert(is_white_space(s[0]));
        lemma_trim_start(d, lo - 1);
        assert(d.skip(lo - 1) =~= s.skip(lo));
    }
}

proof fn lemma_trim_end(s: Seq<char>, hi: int)
    requires
        0 <= hi <= s.len(),
        forall|i: int| hi <= i < s.len() ==> is_white_space(#[trigger] s[i]),
        hi == 0 || !is_white_space(s[hi - 1]),
    ensures
        trim_end(s) == s.take(hi),
    decreases s.len() - hi,
{
    if hi == s.len() {
        assert(s.take(hi) =~= s);
    } else {
        let d = s.drop_last();
        assert forall|i: int| hi <= i < d.len() implies is_white_space(#[trigger] d[i]) by {
            assert(d[i] == s[i]);
        }
        assert(is_white_space(s[s.len() - 1]));
        lemma_trim_end(d, hi);
        assert(d.take(hi) =~= s.take(hi));
    }
}

/// `str::trim`: the text without its leading and trailing white space.
pub fn trim_white_space(s: &str) -> (t: &str)
    ensures
        t@ == trimmed(s@),
{
    let cs = chars_of(s);
    let n = cs.len();
    let mut lo: usize = 0;
    while lo < n && white_space(cs[lo])
        invariant
            cs@ == s@,
            n == cs@.len(),
            lo <= n,
            forall|i: int| 0 <= i < lo ==> is_white_space(#[trigger] s@[i]),
        decreases n - lo,
    {
        lo = lo + 1;
    }
    let mut hi: usize = n;
    while hi > lo && white_space(cs[hi - 1])
        invariant
            cs@ == s@,
            n == cs@.len(),
            lo <= hi <= n,
            forall|i: int| hi <= i < n ==> is_white_space(#[trigger] s@[i]),
        decreases hi - lo,
    {
        hi = hi - 1;
    }
    proof {
        lemma_trim_start(s@, lo as int);
        let t = s@.skip(lo as int);
        assert forall|i: int| hi - lo <= i < t.len() implies is_white_space(#[trigger] t[i]) by {
            assert(t[i] == s@[i + lo]);
        }
        if hi > lo {
            assert(t[hi - lo - 1] == s@[hi - 1]);
        }
        lemma_trim_end(t, hi - lo);
        assert(t.take(hi - lo) =~= s@.subrange(lo as int, hi as int));
    }
    s.substring_char(lo, hi)
}

// ---------------------------------------------------------------------------
// Tokens
// ---------------------------------------------------------------------------

/// Scanning state after a prefix: the finished runs of alphanumeric characters
/// and the run in progress.
pub open spec fn token_state(s: Seq<char>) -> (Seq<Seq<char>>, Seq<char>)
    decreases s.len(),
{
    if s.len() == 0 {
        (seq![], seq![])
    } else {
        let (done, cur) = token_state(s.drop_last());
        let c = s.last();
        if is_alphanumeric(c) {
            (done, cur.push(c))
        } else if cur.len() > 0 {
            (done.push(cur), seq![])
        } else {
            (done, cur)
        }
    }
}

/// The maximal runs of alphanumeric characters of `s`, in order: `s` split at
/// every other character, with empty pieces dropped.
pub open spec fn token_runs(s: Seq<char>) -> Seq<Seq<char>> {
    let (done, cur) = token_state(s);
    if cur.len() > 0 {
        done.push(cur)
    } else {
        done
    }
}

/// The tokens of a text: its alphanumeric runs, each lower-cased.
pub open spec fn spec_tokens(s: Seq<char>) -> Seq<Seq<char>> {
    token_runs(s).map_values(|t: Seq<char>| lowercase(t))
}

// ---------------------------------------------------------------------------
// ASCII text
// ---------------------------------------------------------------------------

/// Every character is ASCII.
pub open spec fn is_ascii_text(s: Seq<char>) -> bool {
    forall|i: int| 0 <= i < s.len() ==> (#[trigger] s[i] as u32) < 128
}

/// An ASCII letter or digit.
pub open spec fn is_ascii_alnum(c: char) -> bool {
    let u = c as u32;
    (48 <= u <= 57) || (65 <= u <= 90) || (97 <= u <= 122)
}

/// The code of the ASCII lower-case form of a character code.
pub open spec fn ascii_lower_code(u: u32) -> u32 {
    if 65 <= u <= 90 {
        (u + 32) as u32
    } else {
        u
    }
}

/// `t` is `s` with its ASCII capitals made small.
pub open spec fn lowered_from(t: Seq<char>, s: Seq<char>) -> bool {
    &&& t.len() == s.len()
    &&& forall|i: int| 0 <= i < s.len() ==> (#[trigger] t[i]) as u32 == ascii_lower_code(s[i] as u32)
}

/// The scanning state of `token_state` with ASCII letters and digits as the
/// alphanumeric characters.
pub open spec fn ascii_token_state(s: Seq<char>) -> (Seq<Seq<char>>, Seq<char>)
    decreases s.len(),
{
    if s.len() == 0 {
        (seq![], seq![])
    } else {
        let (done, cur) = ascii_token_state(s.drop_last());
        let c = s.last();
        if is_ascii_alnum(c) {
            (done, cur.push(c))
        } else if cur.len() > 0 {
            (done.push(cur), seq![])
        } else {
            (done, cur)
        }
    }
}

/// The maximal runs of ASCII letters and digits of `s`, in order.
pub open spec fn ascii_runs(s: Seq<char>) -> Seq<Seq<char>> {
    let (done, cur) = ascii_token_state(s);
    if cur.len() > 0 {
        done.push(cur)
    } else {
        done
    }
}

/// `t` is the token list of an ASCII text `s`: its runs of letters and digits,
/// each with its capitals made small.
pub open spec fn ascii_tokens_of(s: Seq<char>, t: Seq<Seq<char>>) -> bool {
    &&& t.len() == ascii_runs(s).len()
    &&& forall|k: int| 0 <= k < t.len() ==> lowered_from(#[trigger] t[k], ascii_runs(s)[k])
}

/// Tokens joined with single spaces.
pub open spec fn join_with_spaces(t: Seq<Seq<char>>) -> Seq<char>
    decreases t.len(),
{
    if t.len() == 0 {
        seq![]
    } else if t.len() == 1 {
        t[0]
    } else {
        join_with_spaces(t.drop_last()) + seq![' '] + t.last()
    }
}

/// On a text whose characters `is_alphanumeric` judges as ASCII does, the
/// scanning states agree.
proof fn lemma_token_state_ascii(s: Seq<char>)
    requires
        forall|i: int| 0 <= i < s.len() ==> is_alphanumeric(#[trigger] s[i]) == is_ascii_alnum(s[i]),
    ensures
        token_state(s) == ascii_token_state(s),
    decreases s.len(),
{
    if s.len() > 0 {
        let d = s.drop_last();
        assert forall|i: int| 0 <= i < d.len() implies is_alphanumeric(#[trigger] d[i]) == is_ascii_alnum(d[i]) by {
            assert(d[i] == s[i]);
        }
        lemma_token_state_ascii(d);
        assert(is_alphanumeric(s[s.len() - 1]) == is_ascii_alnum(s[s.len() - 1]));
    }
}

/// Every ASCII run is non-empty and made of letters and digits.
proof fn lemma_ascii_state_runs(s: Seq<char>)
    ensures
        forall|k: int| 0 <= k < ascii_token_state(s).0.len() ==> (#[trigger] ascii_token_state(s).0[k]).len() > 0,
        forall|k: int, i: int|
            0 <= k < ascii_token_state(s).0.len() && 0 <= i < ascii_token_state(s).0[k].len()
                ==> is_ascii_alnum(#[trigger] ascii_token_state(s).0[k][i]),
        forall|i: int| 0 <= i < ascii_token_state(s).1.len() ==> is_ascii_alnum(#[trigger] ascii_token_state(s).1[i]),
    decreases s.len(),
{
    if s.len() > 0 {
        let d = s.drop_last();
        lemma_ascii_state_runs(d);
        let (done, cur) = ascii_token_state(d);
        let c = s.last();
        if is_ascii_alnum(c) {
            assert forall|i: int| 0 <= i < cur.push(c).len() implies is_ascii_alnum(#[trigger] cur.push(c)[i]) by {
                if i < cur.len() {
                    assert(cur.push(c)[i] == cur[i]);
                }
            }
        } else if cur.len() > 0 {
            let nd = done.push(cur);
            assert forall|k: int| 0 <= k < nd.len() implies (#[trigger] nd[k]).len() > 0 by {
                if k < done.len() {
                    assert(nd[k] == done[k]);
                }
            }
            assert forall|k: int, i: int| 0 <= k < nd.len() && 0 <= i < nd[k].len() implies is_ascii_alnum(
                #[trigger] nd[k][i],
            ) by {
                if k < done.len() {
                    assert(nd[k] == done[k]);
                } else {
                    assert(nd[k] == cur);
                }
            }
        }
    }
}

proof fn lemma_ascii_runs_shape(s: Seq<char>)
    ensures
        forall|k: int| 0 <= k < ascii_runs(s).len() ==> (#[trigger] ascii_runs(s)[k]).len() > 0,
        forall|k: int, i: int|
            0 <= k < ascii_runs(s).len() && 0 <= i < ascii_runs(s)[k].len() ==> is_ascii_alnum(
                #[trigger] ascii_runs(s)[k][i],
            ),
{
    lemma_ascii_state_runs(s);
    let (done, cur) = ascii_token_state(s);
    if cur.len() > 0 {
        assert forall|k: int| 0 <= k < ascii_runs(s).len() implies (#[trigger] ascii_runs(s)[k]).len() > 0 by {
            if k < done.len() {
                assert(ascii_runs(s)[k] == done[k]);
            }
        }
        assert forall|k: int, i: int|
            0 <= k < ascii_runs(s).len() && 0 <= i < ascii_runs(s)[k].len() implies is_ascii_alnum(
                #[trigger] ascii_runs(s)[k][i],
            ) by {
            if k < done.len() {
                assert(ascii_runs(s)[k] == done[k]);
            }
        }
    }
}

/// Appending a word of letters and digits to a text that ends outside a run
/// makes that word the run in progress.
proof fn lemma_ascii_append_word(p: Seq<char>, w: Seq<char>)
    requires
        ascii_token_state(p).1.len() == 0,
        forall|i: int| 0 <= i < w.len() ==> is_ascii_alnum(#[trigger] w[i]),
    ensures
        ascii_token_state(p + w) == (ascii_token_state(p).0, w),
    decreases w.len(),
{
    if w.len() == 0 {
        assert(p + w =~= p);
        assert(ascii_token_state(p).1 =~= w);
    } else {
        let wd = w.drop_last();
        assert forall|i: int| 0 <= i < wd.len() implies is_ascii_alnum(#[trigger] wd[i]) by {
            assert(wd[i] == w[i]);
        }
        lemma_ascii_append_word(p, wd);
        assert((p + w).drop_last() =~= p + wd);
        assert((p + w).last() == w[w.len() - 1]);
        assert(wd.push(w[w.len() - 1]) =~= w);
    }
}

/// Joining non-empty words of letters and digits with spaces: the last word is
/// the run in progress and the others are the finished runs; every character is
/// a letter, a digit or a space.
proof fn lemma_ascii_join_state(t: Seq<Seq<char>>)
    requires
        t.len() > 0,
        forall|k: int| 0 <= k < t.len() ==> (#[trigger] t[k]).len() > 0,
        forall|k: int, i: int| 0 <= k < t.len() && 0 <= i < t[k].len() ==> is_ascii_alnum(#[trigger] t[k][i]),
    ensures
        ascii_token_state(join_with_spaces(t)) == (t.drop_last(), t.last()),
        forall|i: int|
            0 <= i < join_with_spaces(t).len() ==> is_ascii_alnum(#[trigger] join_with_spaces(t)[i])
                || join_with_spaces(t)[i] == ' ',
    decreases t.len(),
{
    let w = t.last();
    assert forall|i: int| 0 <= i < w.len() implies is_ascii_alnum(#[trigger] w[i]) by {
        assert(is_ascii_alnum(t[t.len() - 1][i]));
    }
    if t.len() == 1 {
        let e: Seq<char> = seq![];
        lemma_ascii_append_word(e, w);
        assert(e + w =~= w);
        assert(t.drop_last() =~= seq![]);
        assert(join_with_spaces(t) == t[0]);
    } else {
        let td = t.drop_last();
        assert forall|k: int| 0 <= k < td.len() implies (#[trigger] td[k]).len() > 0 by {
            assert(td[k] == t[k]);
        }
        assert forall|k: int, i: int| 0 <= k < td.len() && 0 <= i < td[k].len() implies is_ascii_alnum(
            #[trigger] td[k][i],
        ) by {
            assert(td[k] == t[k]);
        }
        lemma_ascii_join_state(td);
        let jd = join_with_spaces(td);
        let js = jd + seq![' '];
        assert(js.drop_last() =~= jd);
        assert(js.last() == ' ');
        assert(td.last().len() > 0);
        assert(td.drop_last().push(td.last()) =~= td);
        assert(ascii_token_state(js) == (td, Seq::<char>::empty()));
        lemma_ascii_append_word(js, w);
        let j = join_with_spaces(t);
        assert(j == js + w);
        assert forall|i: int| 0 <= i < j.len() implies is_ascii_alnum(#[trigger] j[i]) || j[i] == ' ' by {
            if i < jd.len() {
                assert(j[i] == jd[i]);
            } else if i == jd.len() {
                assert(j[i] == ' ');
            } else {
                assert(j[i] == w[i - jd.len() - 1]);
            }
        }
    }
}

/// Two characters with the same code are the same character.
proof fn lemma_char_code_eq(a: char, b: char)
    requires
        a as u32 == b as u32,
    ensures
        a == b,
{
}

/// Re-tokenizing ASCII tokens joined with spaces gives the same tokens: for an
/// ASCII text `s` with tokens `t`, the joined text is ASCII and its tokens are
/// `t` again.
pub proof fn lemma_ascii_tokens_rejoin(s: Seq<char>, t: Seq<Seq<char>>, t2: Seq<Seq<char>>)
    requires
        is_ascii_text(s),
        ascii_tokens_of(s, t),
        ascii_tokens_of(join_with_spaces(t), t2),
    ensures
        is_ascii_text(join_with_spaces(t)),
        t2 == t,
{
    lemma_ascii_runs_shape(s);
    let r = ascii_runs(s);
    assert forall|k: int| 0 <= k < t.len() implies (#[trigger] t[k]).len() > 0 by {
        assert(lowered_from(t[k], r[k]));
        assert(r[k].len() > 0);
    }
    assert forall|k: int, i: int| 0 <= k < t.len() && 0 <= i < t[k].len() implies is_ascii_alnum(
        #[trigger] t[k][i],
    ) && !(65 <= (t[k][i] as u32) <= 90) by {
        assert(lowered_from(t[k], r[k]));
        assert(is_ascii_alnum(r[k][i]));
    }
    let j = join_with_spaces(t);
    if t.len() == 0 {
        assert(j =~= seq![]);
        assert(ascii_runs(j) =~= seq![]);
        assert(t2 =~= t);
    } else {
        lemma_ascii_join_state(t);
        assert(t.drop_last().push(t.last()) =~= t);
        assert(ascii_runs(j) == t);
        assert forall|k: int| 0 <= k < t.len() implies #[trigger] t2[k] == t[k] by {
            assert(lowered_from(t2[k], t[k]));
            assert forall|i: int| 0 <= i < t[k].len() implies #[trigger] t2[k][i] == t[k][i] by {
                assert(is_ascii_alnum(t[k][i]) && !(65 <= (t[k][i] as u32) <= 90));
                assert((t2[k][i] as u32) == ascii_lower_code(t[k][i] as u32));
                lemma_char_code_eq(t2[k][i], t[k][i]);
            }
            assert(t2[k] =~= t[k]);
        }
        assert(t2 =~= t);
    }
    assert forall|i: int| 0 <= i < j.len() implies (#[trigger] j[i] as u32) < 128 by {
        if t.len() > 0 {
            assert(is_ascii_alnum(j[i]) || j[i] == ' ');
            assert((' ' as u32) == 32);
        }
    }
}

/// The views of a sequence of strings after a push.
pub proof fn lemma_views_push(v: Seq<String>, x: String)
    ensures
        v.push(x).map_values(|s: String| s@) == v.map_values(|s: String| s@).push(x@),
{
    assert(v.push(x).map_values(|s: String| s@) =~= v.map_values(|s: String| s@).push(x@));
}

proof fn lemma_push_lowered(out: Seq<String>, done: Seq<Seq<char>>, lower: String, tok: Seq<char>)
    requires
        out.map_values(|t: String| t@) == done.map_values(|t: Seq<char>| lowercase(t)),
        lower@ == lowercase(tok),
    ensures
        out.push(lower).map_values(|t: String| t@) == done.push(tok).map_values(
            |t: Seq<char>| lowercase(t),
        ),
{
    let l = out.push(lower).map_values(|t: String| t@);
    let r = done.push(tok).map_values(|t: Seq<char>| lowercase(t));
    assert(out.len() == out.map_values(|t: String| t@).len());
    assert forall|j: int| 0 <= j < l.len() implies l[j] == r[j] by {
        if j < out.len() {
            assert(out.map_values(|t: String| t@)[j] == done.map_values(|t: Seq<char>| lowercase(t))[j]);
        }
    }
    assert(l =~= r);
}

/// Splits a text at every character that is not alphanumeric, drops the empty
/// pieces and lower-cases the rest.
pub fn normalize_tokens(input: &str) -> (tokens: Vec<String>)
    ensures
        tokens@.map_values(|t: String| t@) == spec_tokens(input@),
        is_ascii_text(input@) ==> ascii_tokens_of(input@, tokens@.map_values(|t: String| t@)),
{
    let chars = chars_of(input);
    let n = chars.len();
    let mut out: Vec<String> = Vec::new();
    let mut start: usize = 0;
    let mut in_token = false;
    let ghost mut done: Seq<Seq<char>> = seq![];
    let mut i: usize = 0;
    while i < n
        invariant
            n == chars@.len(),
            chars@ == input@,
            i <= n,
            start <= i,
            token_state(input@.take(i as int)) == (
            done,
            if in_token {
                input@.subrange(start as int, i as int)
            } else {
                seq![]
            }),
            in_token ==> start < i,
            out@.map_values(|t: String| t@) == done.map_values(|t: Seq<char>| lowercase(t)),
            is_ascii_text(input@) ==> forall|j: int|
                0 <= j < i ==> is_alphanumeric(#[trigger] input@[j]) == is_ascii_alnum(input@[j]),
            is_ascii_text(input@) ==> forall|k: int|
                0 <= k < done.len() ==> lowered_from(lowercase(#[trigger] done[k]), done[k]),
        decreases n - i,
    {
        let c = chars[i];
        proof {
            if is_ascii_text(input@) {
                assert((input@[i as int] as u32) < 128);
            }
        }
        assert(input@.take(i + 1).drop_last() =~= input@.take(i as int));
        assert(input@.take(i + 1).last() == c);
        if char_is_alphanumeric(c) {
            if !in_token {
                start = i;
                in_token = true;
                assert(seq![].push(c) =~= input@.subrange(start as int, i + 1));
            } else {
                assert(input@.subrange(start as int, i as int).push(c) =~= input@.subrange(
                    start as int,
                    i + 1,
                ));
            }
        } else if in_token {
            let token = input.substring_char(start, i);
            proof {
                if is_ascii_text(input@) {
                    assert forall|j: int| 0 <= j < token@.len() implies (#[trigger] token@[j] as u32) < 128 by {
                        assert(token@[j] == input@[start + j]);
                    }
                }
            }
            let lower = str_to_lowercase(token);
            let ghost old_out = out@;
            let ghost old_done = done;
            proof {
                done = done.push(input@.subrange(start as int, i as int));
                assert forall|k: int| 0 <= k < old_done.len() implies done[k] == old_done[k] by {}
            }
            out.push(lower);
            in_token = false;
            proof {
                lemma_push_lowered(old_out, old_done, lower, input@.subrange(start as int, i as int));
            }
        }
        i = i + 1;
    }
    assert(input@.take(n as int) =~= input@);
    if in_token {
        let token = input.substring_char(start, n);
        proof {
            if is_ascii_text(input@) {
                assert forall|j: int| 0 <= j < token@.len() implies (#[trigger] token@[j] as u32) < 128 by {
                    assert(token@[j] == input@[start + j]);
                }
            }
        }
        let lower = str_to_lowercase(token);
        let ghost old_out = out@;
        let ghost old_done = done;
        proof {
            done = done.push(input@.subrange(start as int, n as int));
            assert forall|k: int| 0 <= k < old_done.len() implies done[k] == old_done[k] by {}
        }
        out.push(lower);
        proof {
            lemma_push_lowered(old_out, old_done, lower, input@.subrange(start as int, n as int));
        }
    }
    proof {
        if is_ascii_text(input@) {
            lemma_token_state_ascii(input@);
            let v = out@.map_values(|t: String| t@);
            assert(token_runs(input@) == done);
            assert(ascii_runs(input@) == done);
            assert forall|k: int| 0 <= k < v.len() implies lowered_from(#[trigger] v[k], ascii_runs(input@)[k]) by {
                assert(v[k] == done.map_values(|t: Seq<char>| lowercase(t))[k]);
                assert(lowered_from(lowercase(done[k]), done[k]));
            }
        }
    }
    out
}

// ---------------------------------------------------------------------------
// Edit distance
// ---------------------------------------------------------------------------

pub open spec fn min3(x: nat, y: nat, z: nat) -> nat {
    if x <= y && x <= z {
        x
    } else if y <= z {
        y
    } else {
        z
    }
}

/// The Levenshtein distance: the fewest single-character insertions, deletions
/// and substitutions that turn `a` into `b`.
pub open spec fn edit_distance(a: Seq<char>, b: Seq<char>) -> nat
    decreases a.len() + b.len(),
{
    if a.len() == 0 {
        b.len()
    } else if b.len() == 0 {
        a.len()
    } else if a.last() == b.last() {
        edit_distance(a.drop_last(), b.drop_last())
    } else {
        1 + min3(
            edit_distance(a.drop_last(), b.drop_last()),
            edit_distance(a, b.drop_last()),
            edit_distance(a.drop_last(), b),
        )
    }
}

/// The distance never exceeds the longer length.
pub proof fn lemma_edit_distance_bound(a: Seq<char>, b: Seq<char>)
    ensures
        edit_distance(a, b) <= if a.len() >= b.len() {
            a.len()
        } else {
            b.len()
        },
    decreases a.len() + b.len(),
{
    if a.len() > 0 && b.len() > 0 {
        lemma_edit_distance_bound(a.drop_last(), b.drop_last());
    }
}

/// The distance is at least the difference of the lengths: every edit changes
/// the length by at most one.
pub proof fn lemma_edit_distance_lower_bound(a: Seq<char>, b: Seq<char>)
    ensures
        a.len() - b.len() <= edit_distance(a, b),
        b.len() - a.len() <= edit_distance(a, b),
    decreases a.len() + b.len(),
{
    if a.len() > 0 && b.len() > 0 {
        lemma_edit_distance_lower_bound(a.drop_last(), b.drop_last());
        if a.last() != b.last() {
            lemma_edit_distance_lower_bound(a, b.drop_last());
            lemma_edit_distance_lower_bound(a.drop_last(), b);
        }
    }
}

/// The distance does not depend on the direction: turning `a` into `b` costs
/// what turning `b` into `a` costs.
pub proof fn lemma_edit_distance_symmetric(a: Seq<char>, b: Seq<char>)
    ensures
        edit_distance(a, b) == edit_distance(b, a),
    decreases a.len() + b.len(),
{
    if a.len() > 0 && b.len() > 0 {
        lemma_edit_distance_symmetric(a.drop_last(), b.drop_last());
        if a.last() != b.last() {
            lemma_edit_distance_symmetric(a, b.drop_last());
            lemma_edit_distance_symmetric(a.drop_last(), b);
        }
    }
}

/// The distance is zero exactly between equal texts.
pub proof fn lemma_edit_distance_zero(a: Seq<char>, b: Seq<char>)
    ensures
        edit_distance(a, b) == 0 <==> a == b,
    decreases a.len() + b.len(),
{
    if a.len() == 0 || b.len() == 0 {
        if a.len() == 0 && b.len() == 0 {
            assert(a =~= b);
        }
    } else {
        lemma_edit_distance_zero(a.drop_last(), b.drop_last());
        if a.last() == b.last() && a.drop_last() == b.drop_last() {
            assert(a =~= a.drop_last().push(a.last()));
            assert(b =~= b.drop_last().push(b.last()));
        }
    }
}

/// The Levenshtein distance between the characters of two strings, computed with
/// a single row of the dynamic-programming table.
pub fn levenshtein(a: &str, b: &str) -> (d: usize)
    ensures
        d == edit_distance(a@, b@),
{
    let a_chars = chars_of(a);
    let b_chars = chars_of(b);
    let m = b_chars.len();
    let mut costs: Vec<usize> = Vec::new();
    let mut k: usize = 0;
    while k < m
        invariant
            k <= m,
            m == b@.len(),
            costs@.len() == k,
            forall|j: int| 0 <= j < k ==> costs@[j] == j,
        decreases m - k,
    {
        costs.push(k);
        k = k + 1;
    }
    costs.push(m);
    proof {
        assert forall|j: int| 0 <= j <= m implies costs@[j] == edit_distance(
            a@.take(0),
            #[trigger] b@.take(j),
        ) by {}
    }
    let mut i: usize = 0;
    while i < a_chars.len()
        invariant
            a_chars@ == a@,
            b_chars@ == b@,
            m == b@.len(),
            i <= a@.len(),
            costs@.len() == m + 1,
            forall|j: int| 0 <= j <= m ==> costs@[j] == edit_distance(a@.take(i as int), #[trigger] b@.take(j)),
        decreases a@.len() - i,
    {
        let ca = a_chars[i];
        assert(a@.len() <= usize::MAX);
        let ghost ai = a@.take(i as int);
        let ghost ai1 = a@.take(i + 1);
        assert(ai1.drop_last() =~= ai);
        assert(ai1.last() == ca);
        let mut last = i;
        proof {
            assert(b@.take(0) =~= seq![]);
            assert(costs@[0] == edit_distance(ai, b@.take(0)));
        }
        costs.set(0, i + 1);
        let mut j: usize = 0;
        while j < m
            invariant
                a_chars@ == a@,
                b_chars@ == b@,
                m == b@.len(),
                i < a@.len(),
                a@.len() <= usize::MAX,
                ai == a@.take(i as int),
                ai1 == a@.take(i + 1),
                ai1.drop_last() == ai,
                ai1.last() == ca,
                j <= m,
                costs@.len() == m + 1,
                last == edit_distance(ai, b@.take(j as int)),
                forall|k: int| 0 <= k <= j ==> costs@[k] == edit_distance(ai1, #[trigger] b@.take(k)),
                forall|k: int| j < k <= m ==> costs@[k] == edit_distance(ai, #[trigger] b@.take(k)),
            decreases m - j,
        {
            let cb = b_chars[j];
            let old = costs[j + 1];
            let ghost bj = b@.take(j as int);
            let ghost bj1 = b@.take(j + 1);
            assert(bj1.drop_last() =~= bj);
            assert(bj1.last() == cb);
            proof {
                lemma_edit_distance_bound(ai, bj);
            }
            let next = if ca == cb {
                last
            } else {
                let left = costs[j];
                let mut best = last;
                if left < best {
                    best = left;
                }
                if old < best {
                    best = old;
                }
                1 + best
            };
            costs.set(j + 1, next);
            last = old;
            j = j + 1;
        }
        i = i + 1;
    }
    assert(a@.take(a@.len() as int) =~= a@);
    assert(b@.take(m as int) =~= b@);
    costs[m]
}

/// The terms of the fuzzy similarity of two texts, compared case-insensitively:
/// whether they are identical, their edit distance (zero when identical) and the
/// longer length.  The similarity is `1` when identical, `0` for two empty texts,
/// and `1 - distance / max_len` (clamped to `[0, 1]`) otherwise.
pub struct SimilarityTerms {
    pub identical: bool,
    pub distance: usize,
    pub max_len: usize,
}

/// Computes the similarity terms of two texts after lower-casing both.
pub fn similarity_terms(a: &str, b: &str) -> (t: SimilarityTerms)
    ensures
        t.identical == (lowercase(a@) == lowercase(b@)),
        t.identical ==> t.distance == 0,
        !t.identical ==> t.distance == edit_distance(lowercase(a@), lowercase(b@)),
        t.max_len == if lowercase(a@).len() >= lowercase(b@).len() {
            lowercase(a@).len()
        } else {
            lowercase(b@).len()
        },
{
    let la = str_to_lowercase(a);
    let lb = str_to_lowercase(b);
    let na = chars_of(la.as_str()).len();
    let nb = chars_of(lb.as_str()).len();
    let max_len = if na >= nb {
        na
    } else {
        nb
    };
    if la == lb {
        return SimilarityTerms { identical: true, distance: 0, max_len };
    }
    let distance = levenshtein(la.as_str(), lb.as_str());
    SimilarityTerms { identical: false, distance, max_len }
}

} // verus!
