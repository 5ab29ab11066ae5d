//! Character-level text handling shared by the prompt builder, the reply
//! parsers and the command-line helpers.  Text is handled as `Vec<char>`,
//! whose view is the same `Seq<char>` as the view of a `str` or `String`.

use vstd::prelude::*;
use vstd::std_specs::iter::IteratorSpec;

verus! {

// ---------------------------------------------------------------------------
// Characters
// ---------------------------------------------------------------------------

/// Unicode `White_Space`, the property that `char::is_whitespace`,
/// `str::trim` and `str::split_whitespace` go by.
pub open spec fn is_space(c: char) -> bool {
    let u = c as u32;
    ||| 0x9 <= u <= 0xd
    ||| u == 0x20
    ||| u == 0x85
    ||| u == 0xa0
    ||| u == 0x1680
    ||| 0x2000 <= u <= 0x200a
    ||| u == 0x2028
    ||| u == 0x2029
    ||| u == 0x202f
    ||| u == 0x205f
    ||| u == 0x3000
}

/// Whether `c` is white space.
pub fn is_space_char(c: char) -> (b: bool)
    ensures
        b == is_space(c),
{
    let u = c as u32;
    (0x9 <= u && u <= 0xd) || u == 0x20 || u == 0x85 || u == 0xa0 || u == 0x1680 || (0x2000 <= u
        && u <= 0x200a) || u == 0x2028 || u == 0x2029 || u == 0x202f || u == 0x205f || u == 0x3000
}

/// An ASCII decimal digit.
pub open spec fn is_digit(c: char) -> bool {
    '0' <= c <= '9'
}

/// The character of the decimal digit `d` (for `d < 10`).
pub open spec fn digit_char(d: nat) -> char {
    (48 + d) as char
}

/// ASCII lower-casing of one character (`char::to_ascii_lowercase`).
pub open spec fn lower_char(c: char) -> char {
    if 'A' <= c <= 'Z' {
        (c as u32 + 32) as char
    } else {
        c
    }
}

/// ASCII lower-casing of a text (`str::to_ascii_lowercase`).
pub open spec fn ascii_lower(s: Seq<char>) -> Seq<char> {
    s.map_values(|c: char| lower_char(c))
}

// ---------------------------------------------------------------------------
// Trimming and white-space runs
// ---------------------------------------------------------------------------

/// `s` without its leading white space.
pub open spec fn trim_start(s: Seq<char>) -> Seq<char>
    decreases s.len(),
{
    if s.len() > 0 && is_space(s[0]) {
        trim_start(s.drop_first())
    } else {
        s
    }
}

/// `s` without its trailing white space.
pub open spec fn trim_end(s: Seq<char>) -> Seq<char>
    decreases s.len(),
{
    if s.len() > 0 && is_space(s.last()) {
        trim_end(s.drop_last())
    } else {
        s
    }
}

/// `s` without leading and trailing white space (`str::trim`).
pub open spec fn trim(s: Seq<char>) -> Seq<char> {
    trim_end(trim_start(s))
}

/// The words of `s` joined by single spaces
/// (`s.split_whitespace().collect::<Vec<_>>().join(" ")`): every run of
/// white space between two words becomes one space, and white space before
/// the first word or after the last one disappears.
pub open spec fn collapse_spaces(s: Seq<char>) -> Seq<char>
    decreases s.len(),
{
    if s.len() == 0 {
        Seq::empty()
    } else {
        let before = s.drop_last();
        let c = s.last();
        let done = collapse_spaces(before);
        if is_space(c) {
            done
        } else if before.len() > 0 && is_space(before.last()) && done.len() > 0 {
            done.push(' ').push(c)
        } else {
            done.push(c)
        }
    }
}

/// The fields of `s` between occurrences of `sep` (`str::split` with a
/// character): a text with `k` separators has `k + 1` fields, which may be
/// empty.
pub open spec fn split_fields(s: Seq<char>, sep: char) -> Seq<Seq<char>>
    decreases s.len(),
{
    if s.len() == 0 {
        seq![Seq::empty()]
    } else {
        let f = split_fields(s.drop_last(), sep);
        if s.last() == sep {
            f.push(Seq::empty())
        } else {
            f.update(f.len() - 1, f.last().push(s.last()))
        }
    }
}

/// There is always at least one field.
pub proof fn lemma_split_fields_nonempty(s: Seq<char>, sep: char)
    ensures
        split_fields(s, sep).len() >= 1,
    decreases s.len(),
{
    if s.len() > 0 {
        lemma_split_fields_nonempty(s.drop_last(), sep);
    }
}

/// The views of a list of strings.
pub open spec fn texts(v: Seq<String>) -> Seq<Seq<char>> {
    v.map_values(|s: String| s@)
}

/// The texts of `ms`, each trimmed, with the blank ones left out.
pub open spec fn trimmed_nonblank(ms: Seq<Seq<char>>) -> Seq<Seq<char>>
    decreases ms.len(),
{
    if ms.len() == 0 {
        Seq::empty()
    } else {
        let rest = trimmed_nonblank(ms.drop_last());
        let t = trim(ms.last());
        if t.len() > 0 {
            rest.push(t)
        } else {
            rest
        }
    }
}

proof fn lemma_trim_start_skip(s: Seq<char>, i: int)
    requires
        0 <= i <= s.len(),
        forall|k: int| 0 <= k < i ==> is_space(#[trigger] s[k]),
        i == s.len() || !is_space(s[i]),
    ensures
        trim_start(s) == s.skip(i),
    decreases i,
{
    if i == 0 {
        assert(s.skip(0) =~= s);
    } else {
        assert(is_space(s[0]));
        let t = s.drop_first();
        assert forall|k: int| 0 <= k < i - 1 implies is_space(#[trigger] t[k]) by {
            assert(t[k] == s[k + 1]);
        }
        lemma_trim_start_skip(t, i - 1);
        assert(t.skip(i - 1) =~= s.skip(i));
    }
}

proof fn lemma_trim_end_take(s: Seq<char>, m: int)
    requires
        0 <= m <= s.len(),
        forall|k: int| m <= k < s.len() ==> is_space(#[trigger] s[k]),
        m == 0 || !is_space(s[m - 1]),
    ensures
        trim_end(s) == s.take(m),
    decreases s.len() - m,
{
    if m == s.len() {
        assert(s.take(m) =~= s);
    } else {
        assert(is_space(s.last()));
        let t = s.drop_last();
        assert forall|k: int| m <= k < t.len() implies is_space(#[trigger] t[k]) by {
            assert(t[k] == s[k]);
        }
        lemma_trim_end_take(t, m);
        assert(t.take(m) =~= s.take(m));
    }
}

/// Removing leading white space keeps a suffix whose first character, if
/// any, is not white space.
proof fn lemma_trim_start_shape(s: Seq<char>)
    ensures
        trim_start(s).len() <= s.len(),
        trim_start(s) == s.skip(s.len() - trim_start(s).len()),
        trim_start(s).len() > 0 ==> !is_space(trim_start(s)[0]),
    decreases s.len(),
{
    if s.len() > 0 && is_space(s[0]) {
        lemma_trim_start_shape(s.drop_first());
        let t = trim_start(s.drop_first());
        assert(s.drop_first().skip(s.drop_first().len() - t.len()) =~= s.skip(s.len() - t.len()));
    } else {
        assert(s.skip(0) =~= s);
    }
}

/// Removing trailing white space keeps a prefix whose last character, if
/// any, is not white space.
proof fn lemma_trim_end_shape(s: Seq<char>)
    ensures
        trim_end(s).len() <= s.len(),
        trim_end(s) == s.take(trim_end(s).len() as int),
        trim_end(s).len() > 0 ==> !is_space(trim_end(s).last()),
    decreases s.len(),
{
    if s.len() > 0 && is_space(s.last()) {
        lemma_trim_end_shape(s.drop_last());
        let t = trim_end(s.drop_last());
        assert(s.drop_last().take(t.len() as int) =~= s.take(t.len() as int));
    } else {
        assert(s.take(s.len() as int) =~= s);
    }
}

/// A trimmed text that is not empty begins and ends with a character that
/// is not white space.
pub proof fn lemma_trim_ends(s: Seq<char>)
    ensures
        trim(s).len() > 0 ==> !is_space(trim(s)[0]) && !is_space(trim(s).last()),
{
    let a = trim_start(s);
    lemma_trim_start_shape(s);
    lemma_trim_end_shape(a);
    let b = trim_end(a);
    if b.len() > 0 {
        assert(b[0] == a[0]);
    }
}

/// Trimming keeps a contiguous part of the text: every character of the
/// trimmed text is one of the text.
pub proof fn lemma_trim_keeps_chars(s: Seq<char>)
    ensures
        forall|i: int|
            0 <= i < trim(s).len() ==> exists|k: int| 0 <= k < s.len() && s[k] == #[trigger] trim(s)[i],
{
    let a = trim_start(s);
    lemma_trim_start_shape(s);
    lemma_trim_end_shape(a);
    let t = trim(s);
    let off = s.len() - a.len();
    assert forall|i: int| 0 <= i < t.len() implies exists|k: int|
        0 <= k < s.len() && s[k] == #[trigger] t[i] by {
        assert(t[i] == a[i]);
        assert(a[i] == s[off + i]);
    }
}

proof fn lemma_trim_start_drops_spaces(s: Seq<char>)
    ensures
        forall|k: int| 0 <= k < s.len() - trim_start(s).len() ==> is_space(#[trigger] s[k]),
    decreases s.len(),
{
    lemma_trim_start_shape(s);
    if s.len() > 0 && is_space(s[0]) {
        let t = s.drop_first();
        lemma_trim_start_drops_spaces(t);
        assert forall|k: int| 0 <= k < s.len() - trim_start(s).len() implies is_space(
            #[trigger] s[k],
        ) by {
            if k > 0 {
                assert(s[k] == t[k - 1]);
            }
        }
    }
}

proof fn lemma_trim_end_drops_spaces(s: Seq<char>)
    ensures
        forall|k: int| trim_end(s).len() <= k < s.len() ==> is_space(#[trigger] s[k]),
    decreases s.len(),
{
    lemma_trim_end_shape(s);
    if s.len() > 0 && is_space(s.last()) {
        let t = s.drop_last();
        lemma_trim_end_drops_spaces(t);
        assert forall|k: int| trim_end(s).len() <= k < s.len() implies is_space(#[trigger] s[k]) by {
            if k < s.len() - 1 {
                assert(s[k] == t[k]);
            }
        }
    }
}

/// Trimming removes white space at both ends and nothing else: the text is
/// the white space before the returned position, the trimmed text, and
/// white space after it; and the trimmed text neither begins nor ends with
/// white space.
pub proof fn lemma_trim_strips(s: Seq<char>) -> (a: int)
    ensures
        0 <= a && a + trim(s).len() <= s.len(),
        s.subrange(a, a + trim(s).len()) == trim(s),
        forall|k: int| 0 <= k < a ==> is_space(#[trigger] s[k]),
        forall|k: int| a + trim(s).len() <= k < s.len() ==> is_space(#[trigger] s[k]),
        trim(s).len() > 0 ==> !is_space(trim(s)[0]) && !is_space(trim(s).last()),
{
    let u = trim_start(s);
    lemma_trim_start_shape(s);
    lemma_trim_end_shape(u);
    lemma_trim_start_drops_spaces(s);
    lemma_trim_end_drops_spaces(u);
    lemma_trim_ends(s);
    let a = s.len() - u.len();
    let t = trim(s);
    assert(s.subrange(a, a + t.len()) =~= t) by {
        assert forall|k: int| 0 <= k < t.len() implies #[trigger] s.subrange(a, a + t.len())[k]
            == t[k] by {
            assert(t[k] == u[k]);
            assert(u[k] == s[a + k]);
        }
    }
    assert forall|k: int| a + t.len() <= k < s.len() implies is_space(#[trigger] s[k]) by {
        assert(s[k] == u[k - a]);
    }
    a
}

/// The fields of `fs` joined by `sep`.
pub open spec fn join_fields(fs: Seq<Seq<char>>, sep: char) -> Seq<char>
    decreases fs.len(),
{
    if fs.len() == 0 {
        Seq::empty()
    } else if fs.len() == 1 {
        fs[0]
    } else {
        join_fields(fs.drop_last(), sep).push(sep) + fs.last()
    }
}

/// Splitting loses nothing and cuts at every separator: no field holds the
/// separator, and the fields joined by the separator give back the text.
pub proof fn lemma_split_rejoins(s: Seq<char>, sep: char)
    ensures
        join_fields(split_fields(s, sep), sep) == s,
        forall|k: int, m: int|
            0 <= k < split_fields(s, sep).len() && 0 <= m < split_fields(s, sep)[k].len()
                ==> #[trigger] split_fields(s, sep)[k][m] != sep,
    decreases s.len(),
{
    lemma_split_fields_nonempty(s, sep);
    if s.len() == 0 {
        assert(split_fields(s, sep)[0] =~= Seq::<char>::empty());
        assert(s =~= Seq::<char>::empty());
    } else {
        let p = s.drop_last();
        let c = s.last();
        lemma_split_rejoins(p, sep);
        lemma_split_fields_nonempty(p, sep);
        let f = split_fields(p, sep);
        let g = split_fields(s, sep);
        assert(p.push(c) =~= s);
        if c == sep {
            assert(g.drop_last() =~= f);
            assert(g.last() =~= Seq::<char>::empty());
            assert(join_fields(g, sep) =~= join_fields(f, sep).push(sep) + Seq::<char>::empty());
            assert forall|k: int, m: int| 0 <= k < g.len() && 0 <= m < g[k].len() implies #[trigger] g[k][m]
                != sep by {
                if k < f.len() {
                    assert(g[k] == f[k]);
                }
            }
        } else {
            let l = f.last().push(c);
            assert(g.last() == l);
            if f.len() == 1 {
                assert(join_fields(f, sep) == f[0]);
                assert(g.len() == 1);
                assert(join_fields(g, sep) == g[0]);
                assert(g[0] == l);
            } else {
                assert(g.drop_last() =~= f.drop_last());
                assert(join_fields(g, sep) == join_fields(f.drop_last(), sep).push(sep) + l);
                assert(join_fields(f.drop_last(), sep).push(sep) + l =~= (join_fields(
                    f.drop_last(),
                    sep,
                ).push(sep) + f.last()).push(c));
            }
            assert forall|k: int, m: int| 0 <= k < g.len() && 0 <= m < g[k].len() implies #[trigger] g[k][m]
                != sep by {
                if k < f.len() - 1 {
                    assert(g[k] == f[k]);
                } else {
                    assert(g[k] == l);
                    if m < f.last().len() {
                        assert(l[m] == f[f.len() - 1][m]);
                    }
                }
            }
        }
    }
}

/// Trimming a trimmed text changes nothing.
pub proof fn lemma_trim_idempotent(s: Seq<char>)
    ensures
        trim(trim(s)) == trim(s),
{
    let t = trim(s);
    lemma_trim_ends(s);
    if t.len() > 0 {
        assert(trim_start(t) == t);
        assert(trim_end(t) == t);
    } else {
        assert(trim_start(t) == t);
        assert(trim_end(t) == t);
    }
}

/// Every text of `trimmed_nonblank(ms)` is non-empty and its own trim.
pub proof fn lemma_trimmed_nonblank_items(ms: Seq<Seq<char>>)
    ensures
        forall|i: int|
            0 <= i < trimmed_nonblank(ms).len() ==> #[trigger] trimmed_nonblank(ms)[i].len() > 0
                && trim(trimmed_nonblank(ms)[i]) == trimmed_nonblank(ms)[i],
    decreases ms.len(),
{
    if ms.len() > 0 {
        lemma_trimmed_nonblank_items(ms.drop_last());
        lemma_trim_idempotent(ms.last());
        let rest = trimmed_nonblank(ms.drop_last());
        let r = trimmed_nonblank(ms);
        assert forall|i: int| 0 <= i < r.len() implies #[trigger] r[i].len() > 0 && trim(r[i])
            == r[i] by {
            if i < rest.len() {
                assert(r[i] == rest[i]);
            } else {
                assert(r[i] == trim(ms.last()));
            }
        }
    }
}

/// The collapsed text is empty exactly when the text is blank.
pub proof fn lemma_collapse_empty_iff_blank(s: Seq<char>)
    ensures
        collapse_spaces(s).len() == 0 <==> forall|i: int| 0 <= i < s.len() ==> is_space(#[trigger] s[i]),
    decreases s.len(),
{
    if s.len() > 0 {
        let before = s.drop_last();
        lemma_collapse_empty_iff_blank(before);
        if !is_space(s.last()) {
            assert(!is_space(s[s.len() - 1]));
        } else {
            if collapse_spaces(before).len() == 0 {
                assert forall|i: int| 0 <= i < s.len() implies is_space(#[trigger] s[i]) by {
                    if i < s.len() - 1 {
                        assert(s[i] == before[i]);
                    }
                }
            } else {
                let k = choose|k: int| 0 <= k < before.len() && !is_space(before[k]);
                assert(s[k] == before[k]);
            }
        }
    }
}

/// ASCII lower-casing leaves white space alone.
proof fn lemma_lower_keeps_space(c: char)
    ensures
        is_space(lower_char(c)) == is_space(c),
{
}

/// Trimming and ASCII lower-casing commute.
pub proof fn lemma_trim_lower_commute(s: Seq<char>)
    ensures
        trim(ascii_lower(s)) == ascii_lower(trim(s)),
{
    lemma_trim_start_lower(s);
    lemma_trim_end_lower(trim_start(s));
}

proof fn lemma_trim_start_lower(s: Seq<char>)
    ensures
        trim_start(ascii_lower(s)) == ascii_lower(trim_start(s)),
    decreases s.len(),
{
    let l = ascii_lower(s);
    if s.len() > 0 {
        lemma_lower_keeps_space(s[0]);
        assert(l[0] == lower_char(s[0]));
        assert(l.drop_first() =~= ascii_lower(s.drop_first()));
        lemma_trim_start_lower(s.drop_first());
    } else {
        assert(l =~= s);
    }
}

proof fn lemma_trim_end_lower(s: Seq<char>)
    ensures
        trim_end(ascii_lower(s)) == ascii_lower(trim_end(s)),
    decreases s.len(),
{
    let l = ascii_lower(s);
    if s.len() > 0 {
        lemma_lower_keeps_space(s.last());
        assert(l.last() == lower_char(s.last()));
        assert(l.drop_last() =~= ascii_lower(s.drop_last()));
        lemma_trim_end_lower(s.drop_last());
    } else {
        assert(l =~= s);
    }
}

/// ASCII lower-casing twice is lower-casing once.
pub proof fn lemma_lower_idempotent(s: Seq<char>)
    ensures
        ascii_lower(ascii_lower(s)) == ascii_lower(s),
{
    assert forall|i: int| 0 <= i < s.len() implies lower_char(lower_char(s[i])) == lower_char(
        s[i],
    ) by {
        let c = s[i];
        if 'A' <= c <= 'Z' {
            assert(!('A' <= lower_char(c) <= 'Z'));
        }
    }
    assert(ascii_lower(ascii_lower(s)) =~= ascii_lower(s));
}

/// Characters `from..to` of `s`.
pub fn slice_chars(s: &Vec<char>, from: usize, to: usize) -> (r: Vec<char>)
    requires
        from <= to <= s@.len(),
    ensures
        r@ == s@.subrange(from as int, to as int),
{
    let mut r: Vec<char> = Vec::new();
    let mut k = from;
    while k < to
        invariant
            from <= k <= to <= s@.len(),
            r@ == s@.subrange(from as int, k as int),
        decreases to - k,
    {
        r.push(s[k]);
        k += 1;
    }
    r
}

/// `s` without leading and trailing white space.
pub fn trim_chars(s: &Vec<char>) -> (r: Vec<char>)
    ensures
        r@ == trim(s@),
{
    let n = s.len();
    let mut i: usize = 0;
    while i < n && is_space_char(s[i])
        invariant
            0 <= i <= n,
            n == s@.len(),
            forall|k: int| 0 <= k < i ==> is_space(#[trigger] s@[k]),
        decreases n - i,
    {
        i += 1;
    }
    proof {
        lemma_trim_start_skip(s@, i as int);
    }
    let mut j: usize = n;
    while j > i && is_space_char(s[j - 1])
        invariant
            i <= j <= n,
            n == s@.len(),
            forall|k: int| j <= k < n ==> is_space(#[trigger] s@[k]),
        decreases j - i,
    {
        j -= 1;
    }
    proof {
        let t = s@.skip(i as int);
        assert forall|k: int| (j - i) <= k < t.len() implies is_space(#[trigger] t[k]) by {
            assert(t[k] == s@[k + i]);
        }
        if j > i {
            assert(t[j - i - 1] == s@[j - 1]);
        }
        lemma_trim_end_take(t, (j - i) as int);
        assert(t.take((j - i) as int) =~= s@.subrange(i as int, j as int));
    }
    slice_chars(s, i, j)
}

/// The characters of `s` that are not white space, in order.
pub open spec fn visible(s: Seq<char>) -> Seq<char>
    decreases s.len(),
{
    if s.len() == 0 {
        Seq::empty()
    } else if is_space(s.last()) {
        visible(s.drop_last())
    } else {
        visible(s.drop_last()).push(s.last())
    }
}

/// `s` is words separated by single spaces: its only white space is `' '`,
/// it neither begins nor ends with a space, and every space is followed by
/// a character that is not white space.
pub open spec fn single_spaced(s: Seq<char>) -> bool {
    &&& forall|i: int| 0 <= i < s.len() && is_space(#[trigger] s[i]) ==> s[i] == ' '
    &&& s.len() > 0 ==> !is_space(s[0]) && !is_space(s.last())
    &&& forall|i: int|
        0 <= i < s.len() && is_space(#[trigger] s[i]) ==> i + 1 < s.len() && !is_space(s[i + 1])
}

proof fn lemma_visible_push(s: Seq<char>, c: char)
    ensures
        visible(s.push(c)) == if is_space(c) {
            visible(s)
        } else {
            visible(s).push(c)
        },
{
    assert(s.push(c).drop_last() =~= s);
}

/// Collapsing white space keeps the visible characters, in order, and
/// leaves single spaces between them: no other white space (no line break
/// or tab), no run of spaces, nothing at either end.
pub proof fn lemma_collapse_single_spaced(s: Seq<char>)
    ensures
        single_spaced(collapse_spaces(s)),
        visible(collapse_spaces(s)) == visible(s),
    decreases s.len(),
{
    if s.len() > 0 {
        let before = s.drop_last();
        let c = s.last();
        let done = collapse_spaces(before);
        lemma_collapse_single_spaced(before);
        assert(before.push(c) =~= s);
        lemma_visible_push(before, c);
        if is_space(c) {
        } else if before.len() > 0 && is_space(before.last()) && done.len() > 0 {
            let r = done.push(' ').push(c);
            assert(r.len() == done.len() + 2);
            assert(is_space(' '));
            lemma_visible_push(done, ' ');
            lemma_visible_push(done.push(' '), c);
            assert forall|i: int| 0 <= i < r.len() && is_space(#[trigger] r[i]) implies r[i] == ' '
                && i + 1 < r.len() && !is_space(r[i + 1]) by {
                if i < done.len() {
                    assert(r[i] == done[i]);
                    if i + 1 < done.len() {
                        assert(r[i + 1] == done[i + 1]);
                    }
                }
            }
            assert(r[0] == done[0]);
        } else {
            let r = done.push(c);
            lemma_visible_push(done, c);
            assert forall|i: int| 0 <= i < r.len() && is_space(#[trigger] r[i]) implies r[i] == ' '
                && i + 1 < r.len() && !is_space(r[i + 1]) by {
                if i < done.len() {
                    assert(r[i] == done[i]);
                    if i + 1 < done.len() {
                        assert(r[i + 1] == done[i + 1]);
                    }
                }
            }
            if done.len() > 0 {
                assert(r[0] == done[0]);
            }
        }
    }
}

/// Two collapsed texts joined as words: a single space between them when
/// both hold a word, otherwise whichever is not empty.
pub open spec fn join_words(a: Seq<char>, b: Seq<char>) -> Seq<char> {
    if a.len() > 0 && b.len() > 0 {
        a + seq![' '] + b
    } else if a.len() > 0 {
        a
    } else {
        b
    }
}

/// White space between two texts separates their words by exactly one
/// space: collapsing `a`, a white-space character, then `b` gives the
/// words of `a` and the words of `b` joined by a single space.
pub proof fn lemma_collapse_join(a: Seq<char>, x: char, b: Seq<char>)
    requires
        is_space(x),
    ensures
        collapse_spaces(a + seq![x] + b) == join_words(collapse_spaces(a), collapse_spaces(b)),
    decreases b.len(),
{
    let ca = collapse_spaces(a);
    if b.len() == 0 {
        assert(a + seq![x] + b =~= a.push(x));
        assert(a.push(x).drop_last() =~= a);
        assert(collapse_spaces(b) =~= Seq::<char>::empty());
        if ca.len() > 0 {
        }
    } else {
        let bp = b.drop_last();
        let c = b.last();
        let t = a + seq![x] + b;
        let tp = a + seq![x] + bp;
        assert(t.drop_last() =~= tp);
        assert(t.last() == c);
        lemma_collapse_join(a, x, bp);
        let cbp = collapse_spaces(bp);
        if is_space(c) {
        } else if bp.len() == 0 {
            assert(tp =~= a.push(x));
            assert(a.push(x).drop_last() =~= a);
            assert(tp.last() == x);
            assert(cbp =~= Seq::<char>::empty());
            assert(collapse_spaces(b) =~= seq![c]);
            if ca.len() > 0 {
                assert(ca.push(' ').push(c) =~= ca + seq![' '] + seq![c]);
            } else {
                assert(Seq::<char>::empty().push(c) =~= seq![c]);
            }
        } else {
            assert(tp.last() == bp.last());
            lemma_collapse_empty_iff_blank(bp);
            if is_space(bp.last()) {
                if cbp.len() > 0 {
                    if ca.len() > 0 {
                        assert((ca + seq![' '] + cbp).push(' ').push(c) =~= ca + seq![' '] + cbp.push(
                            ' ',
                        ).push(c));
                    }
                } else if ca.len() > 0 {
                    assert(collapse_spaces(b) =~= seq![c]);
                    assert(ca.push(' ').push(c) =~= ca + seq![' '] + seq![c]);
                } else {
                    assert(collapse_spaces(b) =~= seq![c]);
                    assert(Seq::<char>::empty().push(c) =~= seq![c]);
                }
            } else {
                assert(!is_space(bp[bp.len() - 1]));
                assert(cbp.len() > 0);
                if ca.len() > 0 {
                    assert((ca + seq![' '] + cbp).push(c) =~= ca + seq![' '] + cbp.push(c));
                }
            }
        }
    }
}

/// The words of `s` joined by single spaces.
pub fn collapse_space_chars(s: &Vec<char>) -> (r: Vec<char>)
    ensures
        r@ == collapse_spaces(s@),
        single_spaced(r@),
        visible(r@) == visible(s@),
{
    proof {
        lemma_collapse_single_spaced(s@);
    }
    let mut r: Vec<char> = Vec::new();
    let mut i: usize = 0;
    assert(s@.take(0) =~= Seq::<char>::empty());
    while i < s.len()
        invariant
            0 <= i <= s@.len(),
            r@ == collapse_spaces(s@.take(i as int)),
        decreases s@.len() - i,
    {
        let c = s[i];
        let prefix = Ghost(s@.take(i as int));
        assert(s@.take(i + 1).drop_last() =~= prefix@);
        assert(s@.take(i + 1).last() == c);
        if is_space_char(c) {
        } else if i > 0 && is_space_char(s[i - 1]) && r.len() > 0 {
            assert(prefix@.last() == s@[i - 1]);
            r.push(' ');
            r.push(c);
        } else {
            assert(i > 0 ==> prefix@.last() == s@[i - 1]);
            r.push(c);
        }
        i += 1;
    }
    assert(s@.take(s@.len() as int) =~= s@);
    r
}

/// ASCII lower-casing of `s`.
pub fn ascii_lower_chars(s: &Vec<char>) -> (r: Vec<char>)
    ensures
        r@ == ascii_lower(s@),
{
    let mut r: Vec<char> = Vec::new();
    let mut i: usize = 0;
    while i < s.len()
        invariant
            0 <= i <= s@.len(),
            r@ == ascii_lower(s@.take(i as int)),
        decreases s@.len() - i,
    {
        let c = s[i];
        let l = if 'A' <= c && c <= 'Z' {
            ((c as u8) + 32) as char
        } else {
            c
        };
        assert(l == lower_char(c));
        r.push(l);
        assert(ascii_lower(s@.take(i + 1)) =~= ascii_lower(s@.take(i as int)).push(l));
        i += 1;
    }
    assert(s@.take(s@.len() as int) =~= s@);
    r
}

/// Whether two texts are equal.
pub fn chars_eq(a: &Vec<char>, b: &Vec<char>) -> (r: bool)
    ensures
        r == (a@ == b@),
{
    if a.len() != b.len() {
        return false;
    }
    let mut i: usize = 0;
    while i < a.len()
        invariant
            0 <= i <= a@.len(),
            a@.len() == b@.len(),
            forall|k: int| 0 <= k < i ==> a@[k] == b@[k],
        decreases a@.len() - i,
    {
        if a[i] != b[i] {
            return false;
        }
        i += 1;
    }
    assert(a@ =~= b@);
    true
}

/// Appends the characters of `t` to `out`.
pub fn push_all(out: &mut Vec<char>, t: &Vec<char>)
    ensures
        final(out)@ == old(out)@ + t@,
{
    let mut i: usize = 0;
    while i < t.len()
        invariant
            0 <= i <= t@.len(),
            out@ == old(out)@ + t@.take(i as int),
        decreases t@.len() - i,
    {
        out.push(t[i]);
        assert(t@.take(i + 1) =~= t@.take(i as int).push(t@[i as int]));
        i += 1;
    }
    assert(t@.take(t@.len() as int) =~= t@);
}

// ---------------------------------------------------------------------------
// Decimal numerals
// ---------------------------------------------------------------------------

/// The decimal numeral of `n`, without sign or leading zeros (`{}` on an
/// unsigned integer).
pub open spec fn decimal(n: nat) -> Seq<char>
    decreases n,
{
    if n < 10 {
        seq![digit_char(n)]
    } else {
        decimal(n / 10).push(digit_char(n % 10))
    }
}

/// The number that a string of decimal digits denotes.
pub open spec fn digits_value(s: Seq<char>) -> nat
    decreases s.len(),
{
    if s.len() == 0 {
        0
    } else {
        digits_value(s.drop_last()) * 10 + ((s.last() as nat) - 48) as nat
    }
}

/// The decimal numeral of `n` denotes `n`: it is a non-empty string of
/// decimal digits whose value is `n`, with no leading zero (only `0`
/// itself begins with `0`).
pub proof fn lemma_decimal_denotes(n: nat)
    ensures
        decimal(n).len() > 0,
        forall|i: int| 0 <= i < decimal(n).len() ==> is_digit(#[trigger] decimal(n)[i]),
        digits_value(decimal(n)) == n,
        decimal(n)[0] == '0' ==> n == 0,
    decreases n,
{
    if n >= 10 {
        lemma_decimal_denotes(n / 10);
        let d = decimal(n);
        let p = decimal(n / 10);
        assert(d.drop_last() =~= p);
        assert forall|i: int| 0 <= i < d.len() implies is_digit(#[trigger] d[i]) by {
            if i < d.len() - 1 {
                assert(d[i] == p[i]);
            }
        }
        assert(d[0] == p[0]);
        assert(d.last() == digit_char(n % 10));
        assert(digit_char(n % 10) as nat == 48 + n % 10);
        assert((n / 10) * 10 + n % 10 == n);
        assert(digits_value(d) == digits_value(p) * 10 + ((d.last() as nat) - 48) as nat);
    } else {
        let d = decimal(n);
        assert(d.drop_last() =~= Seq::<char>::empty());
        assert(digits_value(d.drop_last()) == 0);
        assert(digit_char(n) as nat == 48 + n);
        assert(d.last() == digit_char(n));
    }
}

/// Different numbers have different numerals.
pub proof fn lemma_decimal_injective(m: nat, n: nat)
    requires
        decimal(m) == decimal(n),
    ensures
        m == n,
{
    lemma_decimal_denotes(m);
    lemma_decimal_denotes(n);
}

/// Appends the decimal numeral of `n` to `out`.
pub fn push_decimal(out: &mut Vec<char>, n: u64)
    ensures
        final(out)@ == old(out)@ + decimal(n as nat),
    decreases n,
{
    if n >= 10 {
        push_decimal(out, n / 10);
    }
    let d = (n % 10) as u8;
    let c = (48u8 + d) as char;
    assert(c == digit_char((n % 10) as nat));
    out.push(c);
}

// ---------------------------------------------------------------------------
// Prefixes and infixes
// ---------------------------------------------------------------------------

/// `needle` occurs in `s` (`str::contains` with a string pattern).
pub open spec fn has_infix(s: Seq<char>, needle: Seq<char>) -> bool {
    exists|i: int|
        0 <= i && i + needle.len() <= s.len() && #[trigger] s.subrange(i, i + needle.len())
            == needle
}

/// Whether `s` begins with `prefix` (`str::starts_with`).
pub fn starts_with_chars(s: &Vec<char>, prefix: &Vec<char>) -> (r: bool)
    ensures
        r == prefix@.is_prefix_of(s@),
{
    if prefix.len() > s.len() {
        return false;
    }
    let mut i: usize = 0;
    while i < prefix.len()
        invariant
            0 <= i <= prefix@.len() <= s@.len(),
            forall|k: int| 0 <= k < i ==> prefix@[k] == s@[k],
        decreases prefix@.len() - i,
    {
        if prefix[i] != s[i] {
            return false;
        }
        i += 1;
    }
    true
}

/// Whether `needle` occurs in `s` starting at `at`.
pub fn occurs_at(s: &Vec<char>, needle: &Vec<char>, at: usize) -> (r: bool)
    requires
        at + needle@.len() <= s@.len(),
    ensures
        r == (s@.subrange(at as int, at + needle@.len()) == needle@),
{
    let mut i: usize = 0;
    while i < needle.len()
        invariant
            0 <= i <= needle@.len(),
            at + needle@.len() <= s@.len(),
            forall|k: int| 0 <= k < i ==> needle@[k] == s@[at + k],
        decreases needle@.len() - i,
    {
        assert(s.len() == s@.len());
        if needle[i] != s[at + i] {
            assert(s@.subrange(at as int, at + needle@.len())[i as int] != needle@[i as int]);
            return false;
        }
        i += 1;
    }
    assert(s@.subrange(at as int, at + needle@.len()) =~= needle@);
    true
}

/// Whether `needle` occurs anywhere in `s`.
pub fn contains_chars(s: &Vec<char>, needle: &Vec<char>) -> (r: bool)
    ensures
        r == has_infix(s@, needle@),
{
    if needle.len() > s.len() {
        return false;
    }
    let last = s.len() - needle.len();
    let mut at: usize = 0;
    while at < last
        invariant
            last + needle@.len() == s@.len(),
            0 <= at <= last,
            forall|i: int|
                0 <= i < at ==> #[trigger] s@.subrange(i, i + needle@.len()) != needle@,
        decreases last - at,
    {
        if occurs_at(s, needle, at) {
            return true;
        }
        at += 1;
    }
    occurs_at(s, needle, last)
}

/// The first position at or after `i` where `needle` occurs in `s`
/// (`str::find` from position 0).
pub open spec fn find_from(s: Seq<char>, needle: Seq<char>, i: int) -> Option<int>
    decreases s.len() + 1 - i,
{
    if i < 0 || i + needle.len() > s.len() {
        None
    } else if s.subrange(i, i + needle.len()) == needle {
        Some(i)
    } else {
        find_from(s, needle, i + 1)
    }
}

/// A position that `find_from` returns is where the needle occurs.
pub proof fn lemma_find_in_bounds(s: Seq<char>, needle: Seq<char>, i: int)
    ensures
        find_from(s, needle, i) matches Some(k) ==> 0 <= k && k + needle.len() <= s.len()
            && s.subrange(k, k + needle.len()) == needle,
    decreases s.len() + 1 - i,
{
    if !(i < 0 || i + needle.len() > s.len()) && s.subrange(i, i + needle.len()) != needle {
        lemma_find_in_bounds(s, needle, i + 1);
    }
}

/// The first position where `needle` occurs in `s`.
pub fn find_chars(s: &Vec<char>, needle: &Vec<char>) -> (r: Option<usize>)
    ensures
        match r {
            Some(i) => find_from(s@, needle@, 0) == Some(i as int),
            None => find_from(s@, needle@, 0) is None,
        },
{
    if needle.len() > s.len() {
        return None;
    }
    let last = s.len() - needle.len();
    let mut at: usize = 0;
    while at <= last
        invariant
            last + needle@.len() == s@.len(),
            0 <= at <= last + 1,
            find_from(s@, needle@, 0) == find_from(s@, needle@, at as int),
        decreases last + 1 - at,
    {
        if occurs_at(s, needle, at) {
            return Some(at);
        }
        if at == last {
            assert(find_from(s@, needle@, at + 1) is None);
            return None;
        }
        at += 1;
    }
    None
}

// ---------------------------------------------------------------------------
// Conversions between `str`/`String` and characters
// ---------------------------------------------------------------------------

/// The characters of `s`.
pub fn chars_of(s: &str) -> (r: Vec<char>)
    ensures
        r@ == s@,
{
    broadcast use vstd::string::group_string_axioms;

    let mut r: Vec<char> = Vec::new();
    let mut it = s.chars();
    loop
        invariant
            r@ + it.remaining() == s@,
            it.obeys_prophetic_iter_laws(),
            it.decrease() is Some,
        ensures
            r@ == s@,
        decreases it.decrease()->0,
    {
        match it.next() {
            Some(c) => {
                r.push(c);
            },
            None => {
                assert(r@ + it.remaining() =~= r@);
                break;
            },
        }
    }
    r
}

/// The `String` made of the characters of `v`, by
/// `String: FromIterator<&char>`.  Claimed: the string's characters are
/// those of `v`, in order.
#[verifier::external_body]
pub fn string_of(v: &Vec<char>) -> (r: String)
    ensures
        r@ == v@,
{
    String::from_iter(v.iter())
}

} // verus!
