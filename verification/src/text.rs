//! A character-level model of the string operations that help texts are
//! analysed with, and verified executable counterparts working on ranges of
//! a character vector.
use vstd::prelude::*;

verus! {

broadcast use vstd::string::group_string_axioms;

/// Unicode `White_Space`: the characters for which `char::is_whitespace` holds.
pub open spec fn is_ws(c: char) -> bool {
    let u = c as u32;
    ||| 0x09 <= u <= 0x0D
    ||| u == 0x20
    ||| u == 0x85
    ||| u == 0xA0
    ||| u == 0x1680
    ||| 0x2000 <= u <= 0x200A
    ||| u == 0x2028
    ||| u == 0x2029
    ||| u == 0x202F
    ||| u == 0x205F
    ||| u == 0x3000
}

/// `s` without its leading whitespace.
pub open spec fn trim_start(s: Seq<char>) -> Seq<char>
    decreases s.len(),
{
    if s.len() > 0 && is_ws(s[0]) {
        trim_start(s.drop_first())
    } else {
        s
    }
}

/// `s` without its trailing whitespace.
pub open spec fn trim_end(s: Seq<char>) -> Seq<char>
    decreases s.len(),
{
    if s.len() > 0 && is_ws(s.last()) {
        trim_end(s.drop_last())
    } else {
        s
    }
}

/// `s` without leading and trailing whitespace.
pub open spec fn trim(s: Seq<char>) -> Seq<char> {
    trim_end(trim_start(s))
}

/// The first word of `s`: its characters up to the first whitespace.
pub open spec fn leading_word(s: Seq<char>) -> Seq<char>
    decreases s.len(),
{
    if s.len() == 0 || is_ws(s[0]) {
        Seq::empty()
    } else {
        seq![s[0]] + leading_word(s.drop_first())
    }
}

/// The index of the last `c` in `s`.
pub open spec fn last_index_of(s: Seq<char>, c: char) -> Option<int>
    decreases s.len(),
{
    if s.len() == 0 {
        None
    } else if s.last() == c {
        Some(s.len() - 1)
    } else {
        last_index_of(s.drop_last(), c)
    }
}

/// The number of bytes that `c` takes in UTF-8, as `char::len_utf8` gives it.
pub open spec fn utf8_width(c: char) -> nat {
    let u = c as u32;
    if u < 0x80 {
        1
    } else if u < 0x800 {
        2
    } else if u < 0x10000 {
        3
    } else {
        4
    }
}

/// The number of bytes that `s` takes in UTF-8, as `str::len` gives it.
pub open spec fn utf8_len(s: Seq<char>) -> nat
    decreases s.len(),
{
    if s.len() == 0 {
        0
    } else {
        utf8_len(s.drop_last()) + utf8_width(s.last())
    }
}

/// The items of `list` with `sep` between each two.
pub open spec fn join(list: Seq<Seq<char>>, sep: Seq<char>) -> Seq<char>
    decreases list.len(),
{
    if list.len() == 0 {
        Seq::empty()
    } else if list.len() == 1 {
        list[0]
    } else {
        join(list.drop_last(), sep) + sep + list.last()
    }
}

/// `p` is a prefix of `s`.
pub open spec fn starts_with(s: Seq<char>, p: Seq<char>) -> bool {
    p.len() <= s.len() && s.take(p.len() as int) == p
}

/// `p` occurs in `s` starting at index `i`.
pub open spec fn occurs_at(s: Seq<char>, p: Seq<char>, i: int) -> bool {
    0 <= i && i + p.len() <= s.len() && s.subrange(i, i + p.len()) == p
}

/// `p` occurs somewhere in `s`.
pub open spec fn contains(s: Seq<char>, p: Seq<char>) -> bool {
    exists|i: int| occurs_at(s, p, i)
}

/// The first index at or after `i` where `p` occurs in `s`.
pub open spec fn find_from(s: Seq<char>, p: Seq<char>, i: int) -> Option<int>
    decreases s.len() + 1 - i,
{
    if i < 0 || i + p.len() > s.len() {
        None
    } else if occurs_at(s, p, i) {
        Some(i)
    } else {
        find_from(s, p, i + 1)
    }
}

/// The first index where `p` occurs in `s`.
pub open spec fn find(s: Seq<char>, p: Seq<char>) -> Option<int> {
    find_from(s, p, 0)
}

/// `s` with every occurrence of the non-empty `p` replaced by `r`, the
/// occurrences taken from left to right without overlap.
pub open spec fn replace(s: Seq<char>, p: Seq<char>, r: Seq<char>) -> Seq<char>
    decreases s.len(),
{
    if s.len() == 0 {
        s
    } else if p.len() > 0 && starts_with(s, p) {
        r + replace(s.skip(p.len() as int), p, r)
    } else {
        seq![s[0]] + replace(s.drop_first(), p, r)
    }
}

/// The index of the first `c` in `s`.
pub open spec fn index_of(s: Seq<char>, c: char) -> Option<int>
    decreases s.len(),
{
    if s.len() == 0 {
        None
    } else if s[0] == c {
        Some(0)
    } else {
        match index_of(s.drop_first(), c) {
            Some(k) => Some(k + 1),
            None => None,
        }
    }
}

/// The pieces of `s` between the separators `c`, as `str::split` yields them:
/// one more piece than there are separators, empty pieces included.
pub open spec fn split(s: Seq<char>, c: char) -> Seq<Seq<char>>
    decreases s.len(),
{
    match index_of(s, c) {
        Some(k) => {
            proof {
                lemma_index_of_some(s, c);
            }
            seq![s.take(k)] + split(s.skip(k + 1), c)
        },
        None => seq![s],
    }
}

/// `s` without one final carriage return.
pub open spec fn strip_cr(s: Seq<char>) -> Seq<char> {
    if s.len() > 0 && s.last() == '\r' {
        s.drop_last()
    } else {
        s
    }
}

/// The lines of `s`, as `str::lines` yields them: split at `\n`, a `\r` just
/// before a `\n` dropped (a bare final `\r` stays), and no final empty line
/// after a final `\n`.
pub open spec fn lines(s: Seq<char>) -> Seq<Seq<char>> {
    if s.len() == 0 {
        seq![]
    } else {
        let parts = split(s, '\n');
        let ended = parts.drop_last().map_values(|l: Seq<char>| strip_cr(l));
        if s.last() == '\n' {
            ended
        } else {
            ended.push(parts.last())
        }
    }
}

/// `index_of` finds the first occurrence, and none exists when it finds none.
pub proof fn lemma_index_of_some(s: Seq<char>, c: char)
    ensures
        index_of(s, c) matches Some(k) ==> 0 <= k < s.len() && s[k] == c && forall|j: int|
            0 <= j < k ==> s[j] != c,
        index_of(s, c) is None ==> forall|j: int| 0 <= j < s.len() ==> s[j] != c,
    decreases s.len(),
{
    if s.len() > 0 && s[0] != c {
        lemma_index_of_some(s.drop_first(), c);
        assert forall|j: int| 1 <= j < s.len() implies s[j] == s.drop_first()[j - 1] by {}
    }
}

proof fn lemma_index_of_first(s: Seq<char>, c: char, k: int)
    requires
        0 <= k < s.len(),
        s[k] == c,
        forall|j: int| 0 <= j < k ==> s[j] != c,
    ensures
        index_of(s, c) == Some(k),
    decreases k,
{
    if k > 0 {
        lemma_index_of_first(s.drop_first(), c, k - 1);
    }
}

proof fn lemma_index_of_absent(s: Seq<char>, c: char)
    requires
        forall|j: int| 0 <= j < s.len() ==> s[j] != c,
    ensures
        index_of(s, c) is None,
    decreases s.len(),
{
    if s.len() > 0 {
        lemma_index_of_absent(s.drop_first(), c);
    }
}

proof fn lemma_split_len(s: Seq<char>, c: char)
    ensures
        split(s, c).len() >= 1,
    decreases s.len(),
{
    lemma_index_of_some(s, c);
    if let Some(k) = index_of(s, c) {
        lemma_split_len(s.skip(k + 1), c);
    }
}

/// Splitting at the first separator.
pub proof fn lemma_split_step(s: Seq<char>, c: char, k: int)
    requires
        0 <= k < s.len(),
        s[k] == c,
        forall|j: int| 0 <= j < k ==> s[j] != c,
    ensures
        split(s, c) == seq![s.take(k)] + split(s.skip(k + 1), c),
{
    lemma_index_of_first(s, c, k);
}

/// A text with no separator is one piece.
pub proof fn lemma_split_last(s: Seq<char>, c: char)
    requires
        forall|j: int| 0 <= j < s.len() ==> s[j] != c,
    ensures
        split(s, c) == seq![s],
{
    lemma_index_of_absent(s, c);
}

/// The lines of a text are its first line and the lines after it.
pub proof fn lemma_lines_step(s: Seq<char>, k: int)
    requires
        0 <= k < s.len(),
        s[k] == '\n',
        forall|j: int| 0 <= j < k ==> s[j] != '\n',
    ensures
        lines(s) == seq![strip_cr(s.take(k))] + lines(s.skip(k + 1)),
{
    let rest = s.skip(k + 1);
    lemma_split_step(s, '\n', k);
    lemma_split_len(rest, '\n');
    let sr = split(rest, '\n');
    let x = s.take(k);
    let all = seq![x] + sr;
    assert(all.drop_last() =~= seq![x] + sr.drop_last());
    assert(all.last() == sr.last());
    assert(all.drop_last().map_values(|l: Seq<char>| strip_cr(l)) =~= seq![strip_cr(x)]
        + sr.drop_last().map_values(|l: Seq<char>| strip_cr(l)));
    if rest.len() == 0 {
        lemma_split_last(rest, '\n');
        assert(s.last() == '\n');
        assert(sr.drop_last() =~= Seq::<Seq<char>>::empty());
        assert(lines(rest) =~= Seq::<Seq<char>>::empty());
        assert(lines(s) =~= seq![strip_cr(x)] + lines(rest));
    } else {
        assert(s.last() == rest.last());
        let er = sr.drop_last().map_values(|l: Seq<char>| strip_cr(l));
        if rest.last() != '\n' {
            assert((seq![strip_cr(x)] + er).push(sr.last()) =~= seq![strip_cr(x)] + er.push(
                sr.last(),
            ));
        }
    }
}

proof fn lemma_lines_last(s: Seq<char>)
    requires
        s.len() > 0,
        forall|j: int| 0 <= j < s.len() ==> s[j] != '\n',
    ensures
        lines(s) == seq![s],
{
    lemma_split_last(s, '\n');
    assert(s[s.len() - 1] != '\n');
    assert(seq![s].drop_last().map_values(|l: Seq<char>| strip_cr(l)).push(s) =~= seq![s]);
}

/// What `trim_start` removes is a prefix: it keeps a suffix of `s`, which
/// starts with other than whitespace.
pub proof fn lemma_trim_start_suffix(s: Seq<char>)
    ensures
        exists|k: int| 0 <= k <= s.len() && trim_start(s) == s.skip(k),
        trim_start(s).len() > 0 ==> !is_ws(trim_start(s)[0]),
    decreases s.len(),
{
    if s.len() > 0 && is_ws(s[0]) {
        lemma_trim_start_suffix(s.drop_first());
        let k = choose|k: int|
            0 <= k <= s.drop_first().len() && trim_start(s.drop_first()) == s.drop_first().skip(k);
        assert(s.drop_first().skip(k) =~= s.skip(k + 1));
    } else {
        assert(s.skip(0) =~= s);
    }
}

/// What `trim_end` removes is a suffix: it keeps a prefix of `s`, which ends
/// with other than whitespace.
pub proof fn lemma_trim_end_prefix(s: Seq<char>)
    ensures
        exists|k: int| 0 <= k <= s.len() && trim_end(s) == s.take(k),
        trim_end(s).len() > 0 ==> !is_ws(trim_end(s).last()),
    decreases s.len(),
{
    if s.len() > 0 && is_ws(s.last()) {
        lemma_trim_end_prefix(s.drop_last());
        let k = choose|k: int|
            0 <= k <= s.drop_last().len() && trim_end(s.drop_last()) == s.drop_last().take(k);
        assert(s.drop_last().take(k) =~= s.take(k));
    } else {
        assert(s.take(s.len() as int) =~= s);
    }
}

/// A trimmed text is empty, or starts and ends with other than whitespace.
pub proof fn lemma_trim_ends(s: Seq<char>)
    ensures
        trim(s).len() > 0 ==> !is_ws(trim(s)[0]) && !is_ws(trim(s).last()),
{
    lemma_trim_start_suffix(s);
    lemma_trim_end_prefix(trim_start(s));
    let k = choose|k: int|
        0 <= k <= trim_start(s).len() && trim_end(trim_start(s)) == trim_start(s).take(k);
    if trim(s).len() > 0 {
        assert(trim(s)[0] == trim_start(s)[0]);
    }
}

/// The first word of a text is a prefix of it without whitespace, non-empty
/// when the text starts with other than whitespace.
pub proof fn lemma_leading_word_prefix(s: Seq<char>)
    ensures
        leading_word(s).len() <= s.len(),
        s.take(leading_word(s).len() as int) == leading_word(s),
        forall|j: int| 0 <= j < leading_word(s).len() ==> !is_ws(#[trigger] leading_word(s)[j]),
        s.len() > 0 && !is_ws(s[0]) ==> leading_word(s).len() > 0,
    decreases s.len(),
{
    if s.len() > 0 && !is_ws(s[0]) {
        lemma_leading_word_prefix(s.drop_first());
        let w = leading_word(s.drop_first());
        assert(s.take(w.len() + 1int) =~= seq![s[0]] + s.drop_first().take(w.len() as int));
        assert forall|j: int| 0 <= j < leading_word(s).len() implies !is_ws(
            #[trigger] leading_word(s)[j],
        ) by {
            if j > 0 {
                assert(leading_word(s)[j] == w[j - 1]);
            }
        }
    } else {
        assert(s.take(0) =~= Seq::<char>::empty());
    }
}

/// Replacing occurrences of `p` keeps a prefix `q` of `s` in which the first
/// character of `p` does not occur.
pub proof fn lemma_replace_keeps_prefix(s: Seq<char>, p: Seq<char>, r: Seq<char>, q: Seq<char>)
    requires
        p.len() > 0,
        starts_with(s, q),
        forall|j: int| 0 <= j < q.len() ==> q[j] != p[0],
    ensures
        starts_with(replace(s, p, r), q),
    decreases q.len(),
{
    if q.len() == 0 {
        assert(replace(s, p, r).take(0) =~= q);
    } else {
        assert(s[0] == q[0]);
        assert(!starts_with(s, p)) by {
            if starts_with(s, p) {
                assert(s.take(p.len() as int)[0] == p[0]);
            }
        }
        assert(s.drop_first().take(q.len() - 1) =~= q.drop_first());
        lemma_replace_keeps_prefix(s.drop_first(), p, r, q.drop_first());
        let rest = replace(s.drop_first(), p, r);
        assert((seq![s[0]] + rest).take(q.len() as int) =~= seq![s[0]] + rest.take(q.len() - 1));
        assert(seq![q[0]] + q.drop_first() =~= q);
    }
}

/// Replacing a pattern without the character `c` works on the two sides of a
/// `c` separately.
pub proof fn lemma_replace_split(a: Seq<char>, c: char, b: Seq<char>, p: Seq<char>, r: Seq<char>)
    requires
        p.len() > 0,
        forall|j: int| 0 <= j < p.len() ==> p[j] != c,
    ensures
        replace(a + seq![c] + b, p, r) == replace(a, p, r) + seq![c] + replace(b, p, r),
    decreases a.len(),
{
    let s = a + seq![c] + b;
    if a.len() == 0 {
        assert(s =~= seq![c] + b);
        assert(!starts_with(s, p)) by {
            if starts_with(s, p) {
                assert(s.take(p.len() as int)[0] == p[0]);
            }
        }
        assert(s.drop_first() =~= b);
        assert(replace(a, p, r) =~= Seq::<char>::empty());
        assert(replace(s, p, r) =~= replace(a, p, r) + seq![c] + replace(b, p, r));
    } else if starts_with(s, p) {
        assert(p.len() <= a.len()) by {
            if p.len() > a.len() {
                assert(s.take(p.len() as int)[a.len() as int] == c);
                assert(p[a.len() as int] == c);
            }
        }
        assert(a.take(p.len() as int) =~= s.take(p.len() as int));
        let a2 = a.skip(p.len() as int);
        assert(s.skip(p.len() as int) =~= a2 + seq![c] + b);
        lemma_replace_split(a2, c, b, p, r);
        assert(replace(s, p, r) =~= replace(a, p, r) + seq![c] + replace(b, p, r));
    } else {
        assert(!starts_with(a, p)) by {
            if starts_with(a, p) {
                assert(s.take(p.len() as int) =~= a.take(p.len() as int));
            }
        }
        let a2 = a.drop_first();
        assert(s.drop_first() =~= a2 + seq![c] + b);
        assert(s[0] == a[0]);
        lemma_replace_split(a2, c, b, p, r);
        assert(replace(s, p, r) =~= replace(a, p, r) + seq![c] + replace(b, p, r));
    }
}

/// Where `p` does not occur in `s`, replacing it changes nothing.
pub proof fn lemma_replace_absent(s: Seq<char>, p: Seq<char>, r: Seq<char>)
    requires
        p.len() > 0,
        !contains(s, p),
    ensures
        replace(s, p, r) == s,
    decreases s.len(),
{
    if s.len() > 0 {
        assert(!starts_with(s, p)) by {
            if starts_with(s, p) {
                assert(s.subrange(0, p.len() as int) =~= s.take(p.len() as int));
                assert(occurs_at(s, p, 0));
            }
        }
        assert(!contains(s.drop_first(), p)) by {
            if contains(s.drop_first(), p) {
                let i = choose|i: int| occurs_at(s.drop_first(), p, i);
                assert(s.subrange(i + 1, i + 1 + p.len()) =~= s.drop_first().subrange(i, i + p.len()));
                assert(occurs_at(s, p, i + 1));
            }
        }
        lemma_replace_absent(s.drop_first(), p, r);
        assert(seq![s[0]] + s.drop_first() =~= s);
    }
}

/// After the last `c` of `s` no `c` follows, and a text without `c` has no
/// last `c`.
pub proof fn lemma_last_index_of(s: Seq<char>, c: char)
    ensures
        last_index_of(s, c) matches Some(k) ==> 0 <= k < s.len() && s[k] == c && forall|j: int|
            k < j < s.len() ==> s[j] != c,
        last_index_of(s, c) is None <==> forall|j: int| 0 <= j < s.len() ==> s[j] != c,
    decreases s.len(),
{
    if s.len() > 0 && s.last() != c {
        lemma_last_index_of(s.drop_last(), c);
        assert forall|j: int| 0 <= j < s.len() - 1 implies s[j] == s.drop_last()[j] by {}
    }
}

/// The UTF-8 length of two texts one after the other is the sum of theirs.
pub proof fn lemma_utf8_len_append(a: Seq<char>, b: Seq<char>)
    ensures
        utf8_len(a + b) == utf8_len(a) + utf8_len(b),
    decreases b.len(),
{
    if b.len() > 0 {
        lemma_utf8_len_append(a, b.drop_last());
        assert((a + b).drop_last() =~= a + b.drop_last());
        assert((a + b).last() == b.last());
    } else {
        assert(a + b =~= a);
    }
}

proof fn lemma_join_cons(x: Seq<char>, rest: Seq<Seq<char>>, sep: Seq<char>)
    requires
        rest.len() > 0,
    ensures
        join(seq![x] + rest, sep) == x + sep + join(rest, sep),
    decreases rest.len(),
{
    assert((seq![x] + rest).last() == rest.last());
    if rest.len() == 1 {
        assert((seq![x] + rest).drop_last() =~= seq![x]);
        assert(join(seq![x], sep) == x);
        assert(join(rest, sep) == rest[0]);
    } else {
        lemma_join_cons(x, rest.drop_last(), sep);
        assert((seq![x] + rest).drop_last() =~= seq![x] + rest.drop_last());
        assert(join(rest, sep) == join(rest.drop_last(), sep) + sep + rest.last());
        assert(x + sep + join(rest.drop_last(), sep) + sep + rest.last() =~= x + sep + (join(
            rest.drop_last(),
            sep,
        ) + sep + rest.last()));
    }
}

/// Joining the pieces of a split with the separator gives the text back, and
/// no piece holds the separator.
pub proof fn law_split_join(s: Seq<char>, c: char)
    ensures
        join(split(s, c), seq![c]) == s,
        forall|i: int, j: int|
            0 <= i < split(s, c).len() && 0 <= j < split(s, c)[i].len() ==> #[trigger] split(
                s,
                c,
            )[i][j] != c,
    decreases s.len(),
{
    lemma_index_of_some(s, c);
    match index_of(s, c) {
        Some(k) => {
            let rest = s.skip(k + 1);
            law_split_join(rest, c);
            lemma_split_len(rest, c);
            lemma_join_cons(s.take(k), split(rest, c), seq![c]);
            assert(s.take(k) + seq![c] + rest =~= s);
            assert forall|i: int, j: int|
                0 <= i < split(s, c).len() && 0 <= j < split(s, c)[i].len() implies #[trigger] split(
                s,
                c,
            )[i][j] != c by {
                if i > 0 {
                    assert(split(s, c)[i] == split(rest, c)[i - 1]);
                }
            }
        },
        None => {},
    }
}

proof fn lemma_find_from_some(s: Seq<char>, p: Seq<char>, i: int)
    requires
        0 <= i,
    ensures
        find_from(s, p, i) is Some <==> exists|j: int| i <= j && occurs_at(s, p, j),
        find_from(s, p, i) matches Some(j) ==> i <= j && occurs_at(s, p, j),
    decreases s.len() + 1 - i,
{
    if i + p.len() > s.len() {
        assert forall|j: int| i <= j implies !occurs_at(s, p, j) by {}
    } else if occurs_at(s, p, i) {
    } else {
        lemma_find_from_some(s, p, i + 1);
        assert forall|j: int| i <= j && occurs_at(s, p, j) implies i + 1 <= j by {}
    }
}

/// `find` gives the first occurrence.
pub proof fn lemma_find_first(s: Seq<char>, p: Seq<char>, k: int)
    requires
        occurs_at(s, p, k),
        forall|j: int| 0 <= j < k ==> !occurs_at(s, p, j),
    ensures
        find(s, p) == Some(k),
{
    lemma_find_from_first(s, p, 0, k);
}

proof fn lemma_find_from_first(s: Seq<char>, p: Seq<char>, i: int, k: int)
    requires
        0 <= i <= k,
        occurs_at(s, p, k),
        forall|j: int| i <= j < k ==> !occurs_at(s, p, j),
    ensures
        find_from(s, p, i) == Some(k),
    decreases k - i,
{
    if i < k {
        lemma_find_from_first(s, p, i + 1, k);
    }
}

/// `last_index_of` gives the last occurrence.
pub proof fn lemma_last_index_of_at(s: Seq<char>, c: char, k: int)
    requires
        0 <= k < s.len(),
        s[k] == c,
        forall|j: int| k < j < s.len() ==> s[j] != c,
    ensures
        last_index_of(s, c) == Some(k),
    decreases s.len() - k,
{
    if k < s.len() - 1 {
        lemma_last_index_of_at(s.drop_last(), c, k);
    }
}

/// `find` succeeds exactly when `p` occurs in `s`, at an occurrence.
pub proof fn lemma_find_contains(s: Seq<char>, p: Seq<char>)
    ensures
        find(s, p) is Some <==> contains(s, p),
        find(s, p) matches Some(j) ==> occurs_at(s, p, j),
{
    lemma_find_from_some(s, p, 0);
    if contains(s, p) {
        let j = choose|j: int| occurs_at(s, p, j);
        assert(0 <= j);
    }
}

/// Whether `c` is Unicode whitespace.
pub fn is_whitespace(c: char) -> (res: bool)
    ensures
        res == is_ws(c),
{
    let u = c as u32;
    (0x09 <= u && u <= 0x0D) || u == 0x20 || u == 0x85 || u == 0xA0 || u == 0x1680
        || (0x2000 <= u && u <= 0x200A) || u == 0x2028 || u == 0x2029 || u == 0x202F
        || u == 0x205F || u == 0x3000
}

/// The characters of `s`, in order.
pub fn chars_of(s: &str) -> (res: Vec<char>)
    ensures
        res@ == s@,
{
    let mut res: Vec<char> = Vec::new();
    for c in it: s.chars()
        invariant
            res@ == it.seq().take(it.index() as int),
    {
        res.push(c);
    }
    res
}

/// The start of the range `[lo, hi)` of `cs` once its leading whitespace is removed.
pub fn trim_start_index(cs: &Vec<char>, lo: usize, hi: usize) -> (res: usize)
    requires
        lo <= hi <= cs@.len(),
    ensures
        lo <= res <= hi,
        cs@.subrange(res as int, hi as int) == trim_start(cs@.subrange(lo as int, hi as int)),
{
    let mut i = lo;
    while i < hi && is_whitespace(cs[i])
        invariant
            lo <= i <= hi <= cs@.len(),
            trim_start(cs@.subrange(lo as int, hi as int)) == trim_start(
                cs@.subrange(i as int, hi as int),
            ),
        decreases hi - i,
    {
        assert(cs@.subrange(i as int, hi as int).drop_first() =~= cs@.subrange(
            i + 1,
            hi as int,
        ));
        i = i + 1;
    }
    assert(trim_start(cs@.subrange(i as int, hi as int)) == cs@.subrange(i as int, hi as int));
    i
}

/// The range `[start, end)` of `cs` with whitespace removed at both ends.
pub fn trim_range(cs: &Vec<char>, lo: usize, hi: usize) -> (res: (usize, usize))
    requires
        lo <= hi <= cs@.len(),
    ensures
        lo <= res.0 <= res.1 <= hi,
        cs@.subrange(res.0 as int, res.1 as int) == trim(cs@.subrange(lo as int, hi as int)),
{
    let i = trim_start_index(cs, lo, hi);
    let mut j = hi;
    while j > i && is_whitespace(cs[j - 1])
        invariant
            lo <= i <= j <= hi <= cs@.len(),
            trim_end(cs@.subrange(i as int, hi as int)) == trim_end(
                cs@.subrange(i as int, j as int),
            ),
        decreases j - i,
    {
        assert(cs@.subrange(i as int, j as int).drop_last() =~= cs@.subrange(
            i as int,
            j - 1,
        ));
        j = j - 1;
    }
    (i, j)
}

/// Whether `p` occurs in `cs` at index `i`, and fits before `hi`.
pub fn occurs_at_index(cs: &Vec<char>, lo: usize, hi: usize, p: &Vec<char>, i: usize) -> (res:
    bool)
    requires
        lo <= i <= hi <= cs@.len(),
    ensures
        res == occurs_at(cs@.subrange(lo as int, hi as int), p@, i - lo),
{
    if p.len() > hi - i {
        return false;
    }
    let mut k: usize = 0;
    while k < p.len()
        invariant
            lo <= i <= hi <= cs@.len(),
            p@.len() <= hi - i,
            k <= p@.len(),
            forall|m: int| 0 <= m < k ==> cs@[i + m] == p@[m],
        decreases p@.len() - k,
    {
        if cs[i + k] != p[k] {
            assert(cs@.subrange(lo as int, hi as int).subrange(i - lo, i - lo + p@.len())[k as int]
                != p@[k as int]);
            return false;
        }
        k = k + 1;
    }
    assert(cs@.subrange(lo as int, hi as int).subrange(i - lo, i - lo + p@.len()) =~= p@);
    true
}

/// The end of the first word of the range `[lo, hi)` of `cs`.
pub fn word_end(cs: &Vec<char>, lo: usize, hi: usize) -> (res: usize)
    requires
        lo <= hi <= cs@.len(),
    ensures
        lo <= res <= hi,
        cs@.subrange(lo as int, res as int) == leading_word(cs@.subrange(lo as int, hi as int)),
{
    let mut i = lo;
    while i < hi && !is_whitespace(cs[i])
        invariant
            lo <= i <= hi <= cs@.len(),
            forall|j: int| lo <= j < i ==> !is_ws(cs@[j]),
        decreases hi - i,
    {
        i = i + 1;
    }
    proof {
        lemma_leading_word(cs@.subrange(lo as int, hi as int), i - lo);
        assert(cs@.subrange(lo as int, hi as int).take(i - lo) =~= cs@.subrange(lo as int, i as int));
    }
    i
}

/// The first word is the prefix up to the first whitespace.
pub proof fn lemma_leading_word(s: Seq<char>, k: int)
    requires
        0 <= k <= s.len(),
        forall|j: int| 0 <= j < k ==> !is_ws(s[j]),
        k == s.len() || is_ws(s[k]),
    ensures
        leading_word(s) == s.take(k),
    decreases k,
{
    if k > 0 {
        lemma_leading_word(s.drop_first(), k - 1);
        assert(seq![s[0]] + s.drop_first().take(k - 1) =~= s.take(k));
    } else {
        assert(s.take(0) =~= Seq::<char>::empty());
    }
}

/// Whether the range `[lo, hi)` of `cs` takes more than `n` bytes in UTF-8.
pub fn utf8_len_exceeds(cs: &Vec<char>, lo: usize, hi: usize, n: usize) -> (res: bool)
    requires
        lo <= hi <= cs@.len(),
        n < usize::MAX - 4,
    ensures
        res == (utf8_len(cs@.subrange(lo as int, hi as int)) > n),
{
    let mut total: usize = 0;
    let mut i = lo;
    while i < hi
        invariant
            lo <= i <= hi <= cs@.len(),
            n < usize::MAX - 4,
            total == utf8_len(cs@.subrange(lo as int, i as int)),
            total <= n,
        decreases hi - i,
    {
        let u = cs[i] as u32;
        let w: usize = if u < 0x80 {
            1
        } else if u < 0x800 {
            2
        } else if u < 0x10000 {
            3
        } else {
            4
        };
        assert(cs@.subrange(lo as int, i + 1).drop_last() =~= cs@.subrange(lo as int, i as int));
        total = total + w;
        i = i + 1;
        if total > n {
            proof {
                lemma_utf8_len_prefix(cs@.subrange(lo as int, hi as int), i - lo);
                assert(cs@.subrange(lo as int, hi as int).take(i - lo) =~= cs@.subrange(
                    lo as int,
                    i as int,
                ));
            }
            return true;
        }
    }
    false
}

proof fn lemma_utf8_len_prefix(s: Seq<char>, k: int)
    requires
        0 <= k <= s.len(),
    ensures
        utf8_len(s.take(k)) <= utf8_len(s),
    decreases s.len() - k,
{
    if k < s.len() {
        lemma_utf8_len_prefix(s, k + 1);
        assert(s.take(k + 1).drop_last() =~= s.take(k));
    } else {
        assert(s.take(k) =~= s);
    }
}

/// The index of the last `c` in the range `[lo, hi)` of `cs`.
pub fn last_index_in(cs: &Vec<char>, lo: usize, hi: usize, c: char) -> (res: Option<usize>)
    requires
        lo <= hi <= cs@.len(),
    ensures
        match res {
            Some(i) => lo <= i < hi && last_index_of(cs@.subrange(lo as int, hi as int), c) == Some(
                (i - lo) as int,
            ),
            None => last_index_of(cs@.subrange(lo as int, hi as int), c) is None,
        },
{
    let mut j = hi;
    while j > lo
        invariant
            lo <= j <= hi <= cs@.len(),
            last_index_of(cs@.subrange(lo as int, hi as int), c) == last_index_of(
                cs@.subrange(lo as int, j as int),
                c,
            ),
        decreases j - lo,
    {
        if cs[j - 1] == c {
            return Some(j - 1);
        }
        assert(cs@.subrange(lo as int, j as int).drop_last() =~= cs@.subrange(lo as int, j - 1));
        j = j - 1;
    }
    None
}

/// The range `[a, b)` of `cs` equals `p`.
pub fn range_is(cs: &Vec<char>, a: usize, b: usize, p: &Vec<char>) -> (res: bool)
    requires
        a <= b <= cs@.len(),
    ensures
        res == (cs@.subrange(a as int, b as int) == p@),
{
    if b - a != p.len() {
        return false;
    }
    let r = occurs_at_index(cs, a, b, p, a);
    assert(cs@.subrange(a as int, b as int).subrange(0, p@.len() as int) =~= cs@.subrange(
        a as int,
        b as int,
    ));
    r
}

/// Whether the range `[a, b)` of `cs` starts with `p`.
pub fn range_starts_with(cs: &Vec<char>, a: usize, b: usize, p: &Vec<char>) -> (res: bool)
    requires
        a <= b <= cs@.len(),
    ensures
        res == starts_with(cs@.subrange(a as int, b as int), p@),
{
    let r = occurs_at_index(cs, a, b, p, a);
    assert(cs@.subrange(a as int, b as int).subrange(0, p@.len() as int) =~= cs@.subrange(
        a as int,
        b as int,
    ).take(p@.len() as int));
    r
}

/// The first index of `cs` at or after `lo` where `p` occurs within `[lo, hi)`.
pub fn find_in(cs: &Vec<char>, lo: usize, hi: usize, p: &Vec<char>) -> (res: Option<usize>)
    requires
        lo <= hi <= cs@.len(),
    ensures
        match res {
            Some(i) => lo <= i <= hi && find(cs@.subrange(lo as int, hi as int), p@) == Some(
                (i - lo) as int,
            ),
            None => find(cs@.subrange(lo as int, hi as int), p@) is None,
        },
{
    let ghost s = cs@.subrange(lo as int, hi as int);
    let mut i = lo;
    while i <= hi
        invariant
            lo <= i <= hi + 1,
            hi <= cs@.len(),
            s == cs@.subrange(lo as int, hi as int),
            find(s, p@) == find_from(s, p@, i - lo),
        decreases hi + 1 - i,
    {
        if occurs_at_index(cs, lo, hi, p, i) {
            return Some(i);
        }
        if i == hi {
            assert(find_from(s, p@, i - lo + 1) is None);
            assert(find_from(s, p@, i - lo) is None);
            return None;
        }
        i = i + 1;
    }
    None
}

/// `src` restricted to `[lo, hi)`, with every occurrence of `p` replaced by `r`.
pub fn replace_range(src: &str, cs: &Vec<char>, lo: usize, hi: usize, p: &Vec<char>, r: &str) -> (res:
    String)
    requires
        cs@ == src@,
        lo <= hi <= cs@.len(),
        p@.len() > 0,
    ensures
        res@ == replace(cs@.subrange(lo as int, hi as int), p@, r@),
{
    let ghost whole = replace(cs@.subrange(lo as int, hi as int), p@, r@);
    let mut out = String::new();
    let mut seg = lo;
    let mut i = lo;
    assert(out@ + cs@.subrange(seg as int, i as int) =~= Seq::<char>::empty());
    while i < hi
        invariant
            lo <= seg <= i <= hi <= cs@.len(),
            cs@ == src@,
            p@.len() > 0,
            out@ + cs@.subrange(seg as int, i as int) + replace(
                cs@.subrange(i as int, hi as int),
                p@,
                r@,
            ) == whole,
        decreases hi - i,
    {
        let ghost t = cs@.subrange(i as int, hi as int);
        if occurs_at_index(cs, i, hi, p, i) {
            assert(t.take(p@.len() as int) =~= t.subrange(0, p@.len() as int));
            assert(t.skip(p@.len() as int) =~= cs@.subrange(i + p@.len(), hi as int));
            let piece = src.substring_char(seg, i);
            out.append(piece);
            out.append(r);
            i = i + p.len();
            seg = i;
            assert(cs@.subrange(seg as int, i as int) =~= Seq::<char>::empty());
            assert(out@ + cs@.subrange(seg as int, i as int) + replace(
                cs@.subrange(i as int, hi as int),
                p@,
                r@,
            ) =~= whole);
        } else {
            assert(t.take(p@.len() as int) =~= t.subrange(0, p@.len() as int));
            assert(t.drop_first() =~= cs@.subrange(i + 1, hi as int));
            assert(cs@.subrange(seg as int, i as int) + seq![cs@[i as int]] =~= cs@.subrange(
                seg as int,
                i + 1,
            ));
            i = i + 1;
            assert(out@ + cs@.subrange(seg as int, i as int) + replace(
                cs@.subrange(i as int, hi as int),
                p@,
                r@,
            ) =~= whole);
        }
    }
    let piece = src.substring_char(seg, hi);
    out.append(piece);
    assert(out@ =~= whole);
    out
}

/// The line ranges of `cs` within `[lo, hi)`: the `i`th range holds the `i`th
/// line of that text.
pub fn line_ranges(cs: &Vec<char>, lo: usize, hi: usize) -> (res: Vec<(usize, usize)>)
    requires
        lo <= hi <= cs@.len(),
    ensures
        res@.len() == lines(cs@.subrange(lo as int, hi as int)).len(),
        forall|i: int|
            #![trigger res@[i]]
            0 <= i < res@.len() ==> lo <= res@[i].0 <= res@[i].1 <= hi && cs@.subrange(
                res@[i].0 as int,
                res@[i].1 as int,
            ) == lines(cs@.subrange(lo as int, hi as int))[i],
{
    let ghost all = lines(cs@.subrange(lo as int, hi as int));
    let ghost mut acc: Seq<Seq<char>> = Seq::empty();
    let mut res: Vec<(usize, usize)> = Vec::new();
    let mut pos = lo;
    assert(all =~= acc + lines(cs@.subrange(pos as int, hi as int)));
    while pos < hi
        invariant
            lo <= pos <= hi <= cs@.len(),
            acc.len() == res@.len(),
            forall|i: int|
                #![trigger res@[i]]
                0 <= i < res@.len() ==> lo <= res@[i].0 <= res@[i].1 <= hi && cs@.subrange(
                    res@[i].0 as int,
                    res@[i].1 as int,
                ) == acc[i],
            all == acc + lines(cs@.subrange(pos as int, hi as int)),
        decreases hi - pos,
    {
        let ghost t = cs@.subrange(pos as int, hi as int);
        let mut k = pos;
        while k < hi && cs[k] != '\n'
            invariant
                pos <= k <= hi <= cs@.len(),
                forall|j: int| pos <= j < k ==> cs@[j] != '\n',
            decreases hi - k,
        {
            k = k + 1;
        }
        if k < hi {
            let end = if k > pos && cs[k - 1] == '\r' {
                k - 1
            } else {
                k
            };
            proof {
                lemma_lines_step(t, k - pos);
                assert(t.take(k - pos) =~= cs@.subrange(pos as int, k as int));
                assert(t.skip(k - pos + 1) =~= cs@.subrange(k + 1, hi as int));
                assert(strip_cr(cs@.subrange(pos as int, k as int)) =~= cs@.subrange(
                    pos as int,
                    end as int,
                ));
                acc = acc.push(cs@.subrange(pos as int, end as int));
                assert(all =~= acc + lines(cs@.subrange(k + 1, hi as int)));
            }
            res.push((pos, end));
            pos = k + 1;
        } else {
            let end = hi;
            proof {
                lemma_lines_last(t);
                acc = acc.push(cs@.subrange(pos as int, end as int));
                assert(lines(cs@.subrange(hi as int, hi as int)) =~= Seq::<Seq<char>>::empty());
                assert(all =~= acc + lines(cs@.subrange(hi as int, hi as int)));
            }
            res.push((pos, end));
            pos = hi;
        }
    }
    assert(lines(cs@.subrange(hi as int, hi as int)) =~= Seq::<Seq<char>>::empty());
    assert(all =~= acc);
    res
}

/// The pieces of `src` between the separators `sep`, as `str::split` yields them.
pub fn split_on(src: &str, sep: char) -> (res: Vec<String>)
    ensures
        res.deep_view() == split(src@, sep),
{
    let cs = chars_of(src);
    let n = cs.len();
    let mut out: Vec<String> = Vec::new();
    let mut pos: usize = 0;
    let mut finished = false;
    assert(cs@.subrange(0, n as int) =~= cs@);
    assert(out.deep_view() + split(cs@.subrange(0, n as int), sep) =~= split(cs@, sep));
    while !finished
        invariant
            cs@ == src@,
            n == cs@.len(),
            pos <= n,
            !finished ==> out.deep_view() + split(cs@.subrange(pos as int, n as int), sep) == split(
                cs@,
                sep,
            ),
            finished ==> out.deep_view() == split(cs@, sep),
        decreases n - pos + (if finished { 0int } else { 1int }),
    {
        let ghost t = cs@.subrange(pos as int, n as int);
        let mut k = pos;
        while k < n && cs[k] != sep
            invariant
                pos <= k <= n == cs@.len(),
                forall|j: int| pos <= j < k ==> cs@[j] != sep,
            decreases n - k,
        {
            k = k + 1;
        }
        let ghost before = out.deep_view();
        if k < n {
            proof {
                lemma_split_step(t, sep, k - pos);
                assert(t.take(k - pos) =~= cs@.subrange(pos as int, k as int));
                assert(t.skip(k - pos + 1) =~= cs@.subrange(k + 1, n as int));
            }
            out.push(String::from_str(src.substring_char(pos, k)));
            assert(out.deep_view() =~= before.push(cs@.subrange(pos as int, k as int)));
            assert(out.deep_view() + split(cs@.subrange(k + 1, n as int), sep) =~= split(cs@, sep));
            pos = k + 1;
        } else {
            proof {
                lemma_split_last(t, sep);
            }
            out.push(String::from_str(src.substring_char(pos, n)));
            assert(out.deep_view() =~= before.push(t));
            assert(out.deep_view() =~= split(cs@, sep));
            pos = n;
            finished = true;
        }
    }
    out
}

} // verus!
