//! Facts about the text model that the laws rest on: where characters of
//! a result come from, and how often one occurs.
use vstd::prelude::*;
use crate::report::{compact_lines, compacted, keep_non_blank, truncated};
use crate::text::{
    is_white_space,
    join,
    lines,
    lines_from,
    strip_cr,
    trim,
    trim_end,
    trim_start,
};

verus! {

/// Whether `c` does not occur in `s`.
pub open spec fn free_of(s: Seq<char>, c: char) -> bool {
    forall|i: int| 0 <= i < s.len() ==> s[i] != c
}

/// The number of occurrences of `c` in `s`.
pub open spec fn count_of(s: Seq<char>, c: char) -> nat
    decreases s.len(),
{
    if s.len() == 0 {
        0
    } else {
        count_of(s.drop_last(), c) + if s.last() == c {
            1nat
        } else {
            0nat
        }
    }
}

pub proof fn lemma_count_concat(a: Seq<char>, b: Seq<char>, c: char)
    ensures
        count_of(a + b, c) == count_of(a, c) + count_of(b, c),
    decreases b.len(),
{
    if b.len() == 0 {
        assert(a + b =~= a);
    } else {
        lemma_count_concat(a, b.drop_last(), c);
        assert((a + b).drop_last() =~= a + b.drop_last());
        assert((a + b).last() == b.last());
    }
}

pub proof fn lemma_count_free(s: Seq<char>, c: char)
    ensures
        free_of(s, c) == (count_of(s, c) == 0),
    decreases s.len(),
{
    if s.len() > 0 {
        lemma_count_free(s.drop_last(), c);
        if free_of(s, c) {
            assert(free_of(s.drop_last(), c)) by {
                assert forall|i: int| 0 <= i < s.drop_last().len() implies s.drop_last()[i] != c by {
                    assert(s.drop_last()[i] == s[i]);
                }
            }
        }
        if count_of(s, c) == 0 {
            assert forall|i: int| 0 <= i < s.len() implies s[i] != c by {
                if i < s.len() - 1 {
                    assert(s[i] == s.drop_last()[i]);
                }
            }
        }
    }
}

pub proof fn lemma_free_concat(a: Seq<char>, b: Seq<char>, c: char)
    ensures
        free_of(a + b, c) == (free_of(a, c) && free_of(b, c)),
{
    if free_of(a + b, c) {
        assert forall|i: int| 0 <= i < a.len() implies a[i] != c by {
            assert((a + b)[i] == a[i]);
        }
        assert forall|i: int| 0 <= i < b.len() implies b[i] != c by {
            assert((a + b)[a.len() + i] == b[i]);
        }
    }
}

pub proof fn lemma_free_subrange(s: Seq<char>, lo: int, hi: int, c: char)
    requires
        free_of(s, c),
        0 <= lo <= hi <= s.len(),
    ensures
        free_of(s.subrange(lo, hi), c),
{
    assert forall|i: int| 0 <= i < hi - lo implies s.subrange(lo, hi)[i] != c by {
        assert(s.subrange(lo, hi)[i] == s[lo + i]);
    }
}

pub proof fn lemma_trim_start_shape(s: Seq<char>)
    ensures
        trim_start(s).len() <= s.len(),
        trim_start(s) == s.skip(s.len() - trim_start(s).len()),
        forall|i: int|
            0 <= i < s.len() - trim_start(s).len() ==> is_white_space(#[trigger] s[i]),
    decreases s.len(),
{
    if s.len() > 0 && is_white_space(s[0]) {
        lemma_trim_start_shape(s.drop_first());
        let k = s.len() - trim_start(s).len();
        assert(s.drop_first().skip(k - 1) =~= s.skip(k));
        assert forall|i: int| 0 <= i < k implies is_white_space(#[trigger] s[i]) by {
            if i > 0 {
                assert(s[i] == s.drop_first()[i - 1]);
            }
        }
    } else {
        assert(s.skip(0) =~= s);
    }
}

pub proof fn lemma_trim_end_shape(s: Seq<char>)
    ensures
        trim_end(s).len() <= s.len(),
        trim_end(s) == s.take(trim_end(s).len() as int),
        forall|i: int| trim_end(s).len() <= i < s.len() ==> is_white_space(#[trigger] s[i]),
        trim_end(s).len() > 0 ==> !is_white_space(trim_end(s).last()),
    decreases s.len(),
{
    if s.len() > 0 && is_white_space(s.last()) {
        lemma_trim_end_shape(s.drop_last());
        let m = trim_end(s).len() as int;
        assert(s.drop_last().take(m) =~= s.take(m));
        assert forall|i: int| m <= i < s.len() implies is_white_space(#[trigger] s[i]) by {
            if i < s.len() - 1 {
                assert(s[i] == s.drop_last()[i]);
            }
        }
    } else {
        assert(s.take(s.len() as int) =~= s);
    }
}

/// Trimming keeps a stretch of the text.
pub proof fn lemma_trim_is_subrange(s: Seq<char>)
    ensures
        exists|lo: int, hi: int| 0 <= lo <= hi <= s.len() && trim(s) == s.subrange(lo, hi),
{
    lemma_trim_start_shape(s);
    let k = s.len() - trim_start(s).len();
    let x = trim_start(s);
    lemma_trim_end_shape(x);
    let m = trim_end(x).len() as int;
    assert(trim(s) == s.subrange(k, k + m)) by {
        assert(x.take(m) =~= s.subrange(k, k + m));
    }
}

pub proof fn lemma_trim_free(s: Seq<char>, c: char)
    requires
        free_of(s, c),
    ensures
        free_of(trim(s), c),
{
    lemma_trim_is_subrange(s);
    let (lo, hi) = choose|lo: int, hi: int|
        0 <= lo <= hi <= s.len() && trim(s) == s.subrange(lo, hi);
    lemma_free_subrange(s, lo, hi, c);
}

proof fn lemma_count_all_white(s: Seq<char>, c: char)
    requires
        !is_white_space(c),
        forall|i: int| 0 <= i < s.len() ==> is_white_space(#[trigger] s[i]),
    ensures
        count_of(s, c) == 0,
{
    assert(free_of(s, c));
    lemma_count_free(s, c);
}

/// Trimming removes no character other than white space.
pub proof fn lemma_trim_count(s: Seq<char>, c: char)
    requires
        !is_white_space(c),
    ensures
        count_of(trim(s), c) == count_of(s, c),
{
    lemma_trim_start_shape(s);
    let k = s.len() - trim_start(s).len();
    let x = trim_start(s);
    assert(s =~= s.take(k) + x);
    lemma_count_concat(s.take(k), x, c);
    lemma_count_all_white(s.take(k), c);
    lemma_trim_end_shape(x);
    let m = trim_end(x).len() as int;
    assert(x =~= trim_end(x) + x.skip(m));
    lemma_count_concat(trim_end(x), x.skip(m), c);
    assert forall|i: int| 0 <= i < x.skip(m).len() implies is_white_space(
        #[trigger] x.skip(m)[i],
    ) by {
        assert(x.skip(m)[i] == x[m + i]);
    }
    lemma_count_all_white(x.skip(m), c);
}

proof fn lemma_lines_from_free(s: Seq<char>, start: int, i: int, c: char)
    requires
        0 <= start <= i <= s.len(),
        forall|k: int| start <= k < i ==> s[k] != '\n',
    ensures
        forall|j: int|
            0 <= j < lines_from(s, start, i).len() ==> (free_of(s, c) ==> free_of(
                #[trigger] lines_from(s, start, i)[j],
                c,
            )) && free_of(lines_from(s, start, i)[j], '\n'),
    decreases s.len() - i,
{
    let ls = lines_from(s, start, i);
    if i >= s.len() {
        if start < s.len() {
            let last = s.subrange(start, s.len() as int);
            if free_of(s, c) {
                lemma_free_subrange(s, start, s.len() as int, c);
            }
            assert(free_of(last, '\n')) by {
                assert forall|k: int| 0 <= k < last.len() implies last[k] != '\n' by {
                    assert(last[k] == s[start + k]);
                }
            }
            assert(ls == seq![last]);
            assert forall|j: int| 0 <= j < ls.len() implies (free_of(s, c) ==> free_of(
                #[trigger] ls[j],
                c,
            )) && free_of(ls[j], '\n') by {
                assert(j == 0);
            }
        }
    } else if s[i] == '\n' {
        lemma_lines_from_free(s, i + 1, i + 1, c);
        let first = s.subrange(start, i);
        if free_of(s, c) {
            lemma_free_subrange(s, start, i, c);
        }
        assert(free_of(first, '\n')) by {
            assert forall|k: int| 0 <= k < first.len() implies first[k] != '\n' by {
                assert(first[k] == s[start + k]);
            }
        }
        assert((free_of(first, c) ==> free_of(strip_cr(first), c)) && free_of(
            strip_cr(first),
            '\n',
        )) by {
            if first.len() > 0 && first.last() == '\r' {
                assert forall|k: int| 0 <= k < first.drop_last().len() implies first.drop_last()[k]
                    == first[k] by {}
            }
        }
        let rest = lines_from(s, i + 1, i + 1);
        assert(ls =~= seq![strip_cr(first)] + rest);
        assert forall|j: int| 0 <= j < ls.len() implies (free_of(s, c) ==> free_of(
            #[trigger] ls[j],
            c,
        )) && free_of(ls[j], '\n') by {
            if j > 0 {
                assert(ls[j] == rest[j - 1]);
            } else {
                assert(ls[j] == strip_cr(first));
            }
        }
    } else {
        lemma_lines_from_free(s, start, i + 1, c);
        assert(ls == lines_from(s, start, i + 1));
    }
}

/// The lines of a text hold no line break, and no character that the text
/// does not hold.
pub proof fn lemma_lines_free(s: Seq<char>, c: char)
    ensures
        forall|j: int|
            0 <= j < lines(s).len() ==> (free_of(s, c) ==> free_of(#[trigger] lines(s)[j], c))
                && free_of(lines(s)[j], '\n'),
{
    lemma_lines_from_free(s, 0, 0, c);
}

/// Parts and separator free of `c` join into text free of `c`.
pub proof fn lemma_join_free(parts: Seq<Seq<char>>, sep: Seq<char>, c: char)
    requires
        free_of(sep, c),
        forall|j: int| 0 <= j < parts.len() ==> free_of(#[trigger] parts[j], c),
    ensures
        free_of(join(parts, sep), c),
    decreases parts.len(),
{
    if parts.len() > 1 {
        assert forall|j: int| 0 <= j < parts.drop_last().len() implies free_of(
            #[trigger] parts.drop_last()[j],
            c,
        ) by {
            assert(parts.drop_last()[j] == parts[j]);
        }
        lemma_join_free(parts.drop_last(), sep, c);
        lemma_free_concat(join(parts.drop_last(), sep), sep, c);
        lemma_free_concat(join(parts.drop_last(), sep) + sep, parts.last(), c);
    }
}


pub proof fn lemma_keep_non_blank_free(ls: Seq<Seq<char>>, c: char)
    requires
        forall|j: int| 0 <= j < ls.len() ==> free_of(#[trigger] ls[j], c),
    ensures
        forall|j: int|
            0 <= j < keep_non_blank(ls).len() ==> free_of(#[trigger] keep_non_blank(ls)[j], c),
    decreases ls.len(),
{
    if ls.len() > 0 {
        assert forall|j: int| 0 <= j < ls.drop_last().len() implies free_of(
            #[trigger] ls.drop_last()[j],
            c,
        ) by {
            assert(ls.drop_last()[j] == ls[j]);
        }
        lemma_keep_non_blank_free(ls.drop_last(), c);
        let prev = keep_non_blank(ls.drop_last());
        assert forall|j: int| 0 <= j < keep_non_blank(ls).len() implies free_of(
            #[trigger] keep_non_blank(ls)[j],
            c,
        ) by {
            if j < prev.len() {
                assert(keep_non_blank(ls)[j] == prev[j]);
            }
        }
    }
}

proof fn lemma_truncated_free(t: Seq<char>, max: nat, c: char)
    requires
        free_of(t, c),
        c != '.',
    ensures
        free_of(truncated(t, max), c),
{
    reveal_strlit("...");
    if t.len() > max && max >= 3 {
        lemma_free_subrange(t, 0, max - 3, c);
        assert(t.take(max - 3) == t.subrange(0, max - 3));
        lemma_free_concat(t.take(max - 3), "..."@, c);
    }
}

pub proof fn lemma_compact_lines_free(ls: Seq<Seq<char>>, c: char)
    requires
        forall|j: int| 0 <= j < ls.len() ==> free_of(#[trigger] ls[j], c),
        c != '.',
    ensures
        free_of(compact_lines(ls).location, c),
        forall|j: int|
            0 <= j < compact_lines(ls).kept.len() ==> free_of(
                #[trigger] compact_lines(ls).kept[j],
                c,
            ),
    decreases ls.len(),
{
    if ls.len() > 0 {
        assert forall|j: int| 0 <= j < ls.drop_last().len() implies free_of(
            #[trigger] ls.drop_last()[j],
            c,
        ) by {
            assert(ls.drop_last()[j] == ls[j]);
        }
        lemma_compact_lines_free(ls.drop_last(), c);
        let prev = compact_lines(ls.drop_last());
        let t = trim(ls.last());
        lemma_trim_free(ls.last(), c);
        lemma_truncated_free(t, 120, c);
        let now = compact_lines(ls);
        assert forall|j: int| 0 <= j < now.kept.len() implies free_of(#[trigger] now.kept[j], c) by {
            if j < prev.kept.len() {
                assert(now.kept[j] == prev.kept[j]);
            }
        }
    } else {
        assert(free_of(Seq::<char>::empty(), c));
    }
}

/// A compacted failure report holds no character that its report does
/// not, other than the separators and cut marks that compaction adds.
pub proof fn lemma_compacted_free(block: Seq<char>, c: char)
    requires
        free_of(block, c),
        c != '.',
        c != ' ',
        c != '\n',
    ensures
        free_of(compacted(block), c),
{
    reveal_strlit("\n   ");
    lemma_lines_free(block, c);
    lemma_keep_non_blank_free(lines(block), c);
    let ls = keep_non_blank(lines(block));
    if ls.len() > 0 {
        lemma_compact_lines_free(ls, c);
        let cl = compact_lines(ls);
        let shown = if cl.location.len() > 0 {
            cl.kept.push(cl.location)
        } else {
            cl.kept
        };
        assert forall|j: int| 0 <= j < shown.len() implies free_of(#[trigger] shown[j], c) by {
            if j < cl.kept.len() {
                assert(shown[j] == cl.kept[j]);
            }
        }
        lemma_join_free(shown, "\n   "@, c);
    } else {
        assert(free_of(Seq::<char>::empty(), c));
    }
}

} // verus!
