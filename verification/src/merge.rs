//! The merger: folds new patterns into existing ignore-file text and renders
//! a canonical form. Every line is trimmed; blank lines and comment lines are
//! discarded; the rest are deduplicated and ordered with non-negation patterns
//! first, each group sorted lexicographically.

use crate::text::char_free;
use crate::text::lemma_lex_connected;
use crate::text::lemma_lex_irrefl;
use crate::text::lemma_lex_trans;
use crate::text::lemma_split_lines_free;
use crate::text::lemma_split_lines_render;
use crate::text::lemma_trim_char_free;
use crate::text::lemma_trim_idem;
use crate::text::lex_lt;
use crate::text::lines_of;
use crate::text::lex_lt_str;
use crate::text::render;
use crate::text::render_lines;
use crate::text::split_lines;
use crate::text::str_eq;
use crate::text::trim_of;
use crate::text::trim_spec;
use crate::text::views_of;
use vstd::prelude::*;
use vstd::string::StrSliceExecFns;

verus! {

/// A trimmed line is kept when it is non-empty and is not a comment.
pub open spec fn keep_spec(s: Seq<char>) -> bool {
    s.len() > 0 && s[0] != '#'
}

/// A negation pattern re-includes otherwise excluded paths; it begins with `!`.
pub open spec fn is_neg(s: Seq<char>) -> bool {
    s.len() > 0 && s[0] == '!'
}

/// The rendering order: every non-negation pattern before every negation
/// pattern, and lexicographic order within each group.
pub open spec fn key_lt(a: Seq<char>, b: Seq<char>) -> bool {
    (!is_neg(a) && is_neg(b)) || (is_neg(a) == is_neg(b) && lex_lt(a, b))
}

/// Strictly ordered under `key_lt`: sorted, with no duplicates.
pub open spec fn strictly_sorted(ss: Seq<Seq<char>>) -> bool {
    forall|i: int, j: int| 0 <= i < j < ss.len() ==> key_lt(#[trigger] ss[i], #[trigger] ss[j])
}

proof fn lemma_key_irrefl(a: Seq<char>)
    ensures
        !key_lt(a, a),
{
    lemma_lex_irrefl(a);
}

proof fn lemma_key_connected(a: Seq<char>, b: Seq<char>)
    requires
        a != b,
    ensures
        key_lt(a, b) || key_lt(b, a),
{
    if is_neg(a) == is_neg(b) {
        lemma_lex_connected(a, b);
    }
}

proof fn lemma_key_trans(a: Seq<char>, b: Seq<char>, c: Seq<char>)
    requires
        key_lt(a, b),
        key_lt(b, c),
    ensures
        key_lt(a, c),
{
    if is_neg(a) == is_neg(b) && is_neg(b) == is_neg(c) {
        lemma_lex_trans(a, b, c);
    }
}

/// Insert `x` into a strictly ordered sequence, keeping it strictly ordered:
/// a duplicate of an element already present changes nothing.
pub open spec fn insert_line(ss: Seq<Seq<char>>, x: Seq<char>) -> Seq<Seq<char>>
    decreases ss.len(),
{
    if ss.len() == 0 {
        seq![x]
    } else if x == ss[0] {
        ss
    } else if key_lt(x, ss[0]) {
        seq![x] + ss
    } else {
        seq![ss[0]] + insert_line(ss.drop_first(), x)
    }
}

/// Trim every raw line and drop those that are blank or comments, in order.
pub open spec fn norm_lines(raw: Seq<Seq<char>>) -> Seq<Seq<char>>
    decreases raw.len(),
{
    if raw.len() == 0 {
        Seq::<Seq<char>>::empty()
    } else {
        let prev = norm_lines(raw.drop_last());
        let t = trim_spec(raw.last());
        if keep_spec(t) {
            prev.push(t)
        } else {
            prev
        }
    }
}

/// The canonical form of a collection of patterns: each in turn inserted into
/// a strictly ordered, duplicate-free sequence.
pub open spec fn ordered_output(ls: Seq<Seq<char>>) -> Seq<Seq<char>>
    decreases ls.len(),
{
    if ls.len() == 0 {
        Seq::<Seq<char>>::empty()
    } else {
        insert_line(ordered_output(ls.drop_last()), ls.last())
    }
}

/// What `merge` returns: the existing text's lines and the new patterns,
/// normalized, deduplicated, canonically ordered, and rendered as file text.
pub open spec fn merge_spec(text: Seq<char>, args: Seq<Seq<char>>) -> Seq<char> {
    render(ordered_output(norm_lines(split_lines(text) + args)))
}

proof fn lemma_tail_sorted(ss: Seq<Seq<char>>)
    requires
        strictly_sorted(ss),
        ss.len() > 0,
    ensures
        strictly_sorted(ss.drop_first()),
{
    let t = ss.drop_first();
    assert forall|i: int, j: int| 0 <= i < j < t.len() implies key_lt(t[i], t[j]) by {
        assert(t[i] == ss[i + 1] && t[j] == ss[j + 1]);
    }
}

proof fn lemma_insert_line_contains(ss: Seq<Seq<char>>, x: Seq<char>, y: Seq<char>)
    ensures
        insert_line(ss, x).contains(y) <==> (ss.contains(y) || y == x),
    decreases ss.len(),
{
    let r = insert_line(ss, x);
    if ss.len() == 0 {
        assert(r[0] == x);
        if r.contains(y) {
            let k = choose|k: int| 0 <= k < r.len() && r[k] == y;
            assert(k == 0);
        }
    } else if x == ss[0] {
        assert(ss[0] == x);
    } else if key_lt(x, ss[0]) {
        if r.contains(y) {
            let k = choose|k: int| 0 <= k < r.len() && r[k] == y;
            if k == 0 {
                assert(y == x);
            } else {
                assert(ss[k - 1] == y);
            }
        }
        if y == x {
            assert(r[0] == y);
        }
        if ss.contains(y) {
            let k = choose|k: int| 0 <= k < ss.len() && ss[k] == y;
            assert(r[k + 1] == y);
        }
    } else {
        let tail = ss.drop_first();
        lemma_insert_line_contains(tail, x, y);
        let it = insert_line(tail, x);
        if r.contains(y) {
            let k = choose|k: int| 0 <= k < r.len() && r[k] == y;
            if k == 0 {
                assert(ss[0] == y);
            } else {
                assert(it[k - 1] == y);
                assert(it.contains(y));
                if tail.contains(y) {
                    let m = choose|m: int| 0 <= m < tail.len() && tail[m] == y;
                    assert(ss[m + 1] == y);
                }
            }
        }
        if ss.contains(y) {
            let k = choose|k: int| 0 <= k < ss.len() && ss[k] == y;
            if k == 0 {
                assert(r[0] == y);
            } else {
                assert(tail[k - 1] == y);
                assert(tail.contains(y));
                assert(it.contains(y));
                let m = choose|m: int| 0 <= m < it.len() && it[m] == y;
                assert(r[m + 1] == y);
            }
        }
        if y == x {
            assert(it.contains(y));
            let m = choose|m: int| 0 <= m < it.len() && it[m] == y;
            assert(r[m + 1] == y);
        }
    }
}

proof fn lemma_insert_line_sorted(ss: Seq<Seq<char>>, x: Seq<char>)
    requires
        strictly_sorted(ss),
    ensures
        strictly_sorted(insert_line(ss, x)),
    decreases ss.len(),
{
    let r = insert_line(ss, x);
    if ss.len() == 0 {
    } else if x == ss[0] {
    } else if key_lt(x, ss[0]) {
        assert forall|i: int, j: int| 0 <= i < j < r.len() implies key_lt(r[i], r[j]) by {
            if i == 0 {
                assert(r[j] == ss[j - 1]);
                if j > 1 {
                    assert(key_lt(ss[0], ss[j - 1]));
                    lemma_key_trans(x, ss[0], ss[j - 1]);
                }
            } else {
                assert(r[i] == ss[i - 1] && r[j] == ss[j - 1]);
            }
        }
    } else {
        lemma_key_connected(x, ss[0]);
        assert(key_lt(ss[0], x));
        let tail = ss.drop_first();
        lemma_tail_sorted(ss);
        lemma_insert_line_sorted(tail, x);
        let it = insert_line(tail, x);
        assert forall|i: int, j: int| 0 <= i < j < r.len() implies key_lt(r[i], r[j]) by {
            if i == 0 {
                assert(r[j] == it[j - 1]);
                assert(it.contains(it[j - 1]));
                lemma_insert_line_contains(tail, x, it[j - 1]);
                if it[j - 1] == x {
                    assert(key_lt(ss[0], x));
                } else {
                    assert(tail.contains(it[j - 1]));
                    let k = choose|k: int| 0 <= k < tail.len() && tail[k] == it[j - 1];
                    assert(tail[k] == ss[k + 1]);
                    assert(key_lt(ss[0], ss[k + 1]));
                }
            } else {
                assert(r[i] == it[i - 1] && r[j] == it[j - 1]);
            }
        }
    }
}

proof fn lemma_contains_last(s: Seq<Seq<char>>, y: Seq<char>)
    requires
        s.len() > 0,
    ensures
        s.contains(y) <==> (s.drop_last().contains(y) || s.last() == y),
{
    if s.contains(y) {
        let k = choose|k: int| 0 <= k < s.len() && s[k] == y;
        if k < s.len() - 1 {
            assert(s.drop_last()[k] == y);
        }
    }
    if s.drop_last().contains(y) {
        let k = choose|k: int| 0 <= k < s.drop_last().len() && s.drop_last()[k] == y;
        assert(s[k] == y);
    }
}

/// The canonical form is strictly ordered.
pub proof fn lemma_ordered_output_sorted(ls: Seq<Seq<char>>)
    ensures
        strictly_sorted(ordered_output(ls)),
    decreases ls.len(),
{
    if ls.len() > 0 {
        lemma_ordered_output_sorted(ls.drop_last());
        lemma_insert_line_sorted(ordered_output(ls.drop_last()), ls.last());
    }
}

/// The canonical form holds exactly the elements of its input.
pub proof fn lemma_ordered_output_contains(ls: Seq<Seq<char>>, y: Seq<char>)
    ensures
        ordered_output(ls).contains(y) <==> ls.contains(y),
    decreases ls.len(),
{
    if ls.len() > 0 {
        lemma_ordered_output_contains(ls.drop_last(), y);
        lemma_insert_line_contains(ordered_output(ls.drop_last()), ls.last(), y);
        lemma_contains_last(ls, y);
    }
}

/// Two strictly ordered sequences with the same elements are equal.
pub proof fn lemma_sorted_same_eq(a: Seq<Seq<char>>, b: Seq<Seq<char>>)
    requires
        strictly_sorted(a),
        strictly_sorted(b),
        forall|y: Seq<char>| a.contains(y) <==> b.contains(y),
    ensures
        a == b,
    decreases a.len(),
{
    if a.len() == 0 {
        if b.len() > 0 {
            assert(b.contains(b[0]));
        }
        assert(a =~= b);
    } else {
        assert(a.contains(a[0]));
        assert(b.contains(a[0]));
        assert(b.len() > 0);
        assert(a[0] == b[0]) by {
            if a[0] != b[0] {
                let j = choose|j: int| 0 <= j < b.len() && b[j] == a[0];
                assert(j > 0);
                assert(key_lt(b[0], a[0]));
                assert(a.contains(b[0]));
                let i = choose|i: int| 0 <= i < a.len() && a[i] == b[0];
                assert(i > 0);
                assert(key_lt(a[0], b[0]));
                lemma_key_trans(a[0], b[0], a[0]);
                lemma_key_irrefl(a[0]);
            }
        }
        let at = a.drop_first();
        let bt = b.drop_first();
        lemma_tail_sorted(a);
        lemma_tail_sorted(b);
        assert forall|y: Seq<char>| at.contains(y) <==> bt.contains(y) by {
            lemma_head_tail_contains(a, y);
            lemma_head_tail_contains(b, y);
        }
        lemma_sorted_same_eq(at, bt);
        assert(at.len() == bt.len());
        assert(a.len() == b.len());
        assert forall|k: int| 0 <= k < a.len() implies a[k] == b[k] by {
            if k > 0 {
                assert(at[k - 1] == a[k] && bt[k - 1] == b[k]);
                assert(at[k - 1] == bt[k - 1]);
            }
        }
        assert(a =~= b);
    }
}

proof fn lemma_head_tail_contains(s: Seq<Seq<char>>, y: Seq<char>)
    requires
        strictly_sorted(s),
        s.len() > 0,
    ensures
        s.drop_first().contains(y) <==> (s.contains(y) && y != s[0]),
{
    let t = s.drop_first();
    if t.contains(y) {
        let k = choose|k: int| 0 <= k < t.len() && t[k] == y;
        assert(s[k + 1] == y);
        assert(s.contains(y));
        assert(key_lt(s[0], s[k + 1]));
        lemma_key_irrefl(s[0]);
        assert(y != s[0]);
    }
    if s.contains(y) && y != s[0] {
        let k = choose|k: int| 0 <= k < s.len() && s[k] == y;
        assert(k > 0);
        assert(t[k - 1] == y);
    }
}

/// The canonical form depends only on which patterns occur, not on their
/// order or multiplicity.
pub proof fn lemma_ordered_output_same(ls1: Seq<Seq<char>>, ls2: Seq<Seq<char>>)
    requires
        forall|y: Seq<char>| ls1.contains(y) <==> ls2.contains(y),
    ensures
        ordered_output(ls1) == ordered_output(ls2),
{
    lemma_ordered_output_sorted(ls1);
    lemma_ordered_output_sorted(ls2);
    assert forall|y: Seq<char>|
        ordered_output(ls1).contains(y) <==> ordered_output(ls2).contains(y) by {
        lemma_ordered_output_contains(ls1, y);
        lemma_ordered_output_contains(ls2, y);
    }
    lemma_sorted_same_eq(ordered_output(ls1), ordered_output(ls2));
}

/// Every normalized line is the kept trimming of some raw line.
pub proof fn lemma_norm_contains_fwd(raw: Seq<Seq<char>>, y: Seq<char>)
    requires
        norm_lines(raw).contains(y),
    ensures
        keep_spec(y),
        exists|i: int| 0 <= i < raw.len() && trim_spec(#[trigger] raw[i]) == y,
    decreases raw.len(),
{
    let prev = norm_lines(raw.drop_last());
    let t = trim_spec(raw.last());
    if keep_spec(t) {
        lemma_contains_last(prev.push(t), y);
        assert(prev.push(t).drop_last() =~= prev);
        if prev.contains(y) {
            lemma_norm_contains_fwd(raw.drop_last(), y);
            let i = choose|i: int|
                0 <= i < raw.drop_last().len() && trim_spec(#[trigger] raw.drop_last()[i]) == y;
            assert(raw.drop_last()[i] == raw[i]);
            assert(trim_spec(raw[i]) == y);
        } else {
            assert(y == t);
            assert(trim_spec(raw[raw.len() - 1]) == y);
        }
    } else {
        lemma_norm_contains_fwd(raw.drop_last(), y);
        let i = choose|i: int|
            0 <= i < raw.drop_last().len() && trim_spec(#[trigger] raw.drop_last()[i]) == y;
        assert(raw.drop_last()[i] == raw[i]);
        assert(trim_spec(raw[i]) == y);
    }
}

/// The kept trimming of every raw line is among the normalized lines.
pub proof fn lemma_norm_contains_bwd(raw: Seq<Seq<char>>, i: int)
    requires
        0 <= i < raw.len(),
        keep_spec(trim_spec(raw[i])),
    ensures
        norm_lines(raw).contains(trim_spec(raw[i])),
    decreases raw.len(),
{
    let prev = norm_lines(raw.drop_last());
    let t = trim_spec(raw.last());
    if i == raw.len() - 1 {
        assert(t == trim_spec(raw[i]));
        assert(norm_lines(raw) == prev.push(t));
        assert(prev.push(t)[prev.len() as int] == t);
    } else {
        assert(raw.drop_last()[i] == raw[i]);
        lemma_norm_contains_bwd(raw.drop_last(), i);
        assert(prev.contains(trim_spec(raw[i])));
        if keep_spec(t) {
            let k = choose|k: int| 0 <= k < prev.len() && prev[k] == trim_spec(raw[i]);
            assert(prev.push(t)[k] == trim_spec(raw[i]));
            assert(norm_lines(raw) == prev.push(t));
        }
    }
}

fn is_neg_str(s: &str) -> (b: bool)
    ensures
        b == is_neg(s@),
{
    s.unicode_len() > 0 && s.get_char(0) == '!'
}

fn key_lt_str(a: &str, b: &str) -> (r: bool)
    ensures
        r == key_lt(a@, b@),
{
    let na = is_neg_str(a);
    let nb = is_neg_str(b);
    if !na && nb {
        true
    } else if na == nb {
        lex_lt_str(a, b)
    } else {
        false
    }
}

/// Insert one pattern into the strictly ordered list under construction, as
/// `insert_line` describes.
fn insert_pattern(v: &mut Vec<String>, x: String)
    ensures
        views_of(final(v)@) == insert_line(views_of(old(v)@), x@),
{
    let ghost whole = views_of(v@);
    let mut i: usize = 0;
    proof {
        assert(whole.take(0) =~= Seq::<Seq<char>>::empty());
        assert(whole.skip(0) =~= whole);
        assert(insert_line(whole, x@) == whole.take(0) + insert_line(whole.skip(0), x@));
    }
    while i < v.len()
        invariant
            0 <= i <= v@.len(),
            whole == views_of(v@),
            whole == views_of(old(v)@),
            insert_line(whole, x@) == whole.take(i as int) + insert_line(
                whole.skip(i as int),
                x@,
            ),
        decreases v@.len() - i,
    {
        let ghost rest = whole.skip(i as int);
        proof {
            assert(rest[0] == whole[i as int]);
            assert(whole[i as int] == v@[i as int]@);
        }
        if str_eq(x.as_str(), v[i].as_str()) {
            proof {
                assert(x@ == rest[0]);
                assert(insert_line(rest, x@) == rest);
                assert(whole.take(i as int) + whole.skip(i as int) =~= whole);
            }
            return ;
        }
        if key_lt_str(x.as_str(), v[i].as_str()) {
            proof {
                assert(x@ != rest[0]);
                assert(key_lt(x@, rest[0]));
                assert(insert_line(rest, x@) == seq![x@] + rest);
            }
            let ghost before = v@;
            v.insert(i, x);
            proof {
                assert(v@ == before.insert(i as int, x));
                assert(views_of(before.insert(i as int, x)) =~= whole.take(i as int) + (seq![x@]
                    + whole.skip(i as int)));
                assert(views_of(v@) == insert_line(whole, x@));
            }
            return ;
        }
        proof {
            assert(insert_line(rest, x@) == seq![rest[0]] + insert_line(rest.drop_first(), x@));
            assert(rest.drop_first() =~= whole.skip(i + 1));
            assert(whole.take(i + 1) =~= whole.take(i as int).push(whole[i as int]));
            assert(whole.take(i as int) + (seq![rest[0]] + insert_line(whole.skip(i + 1), x@))
                =~= whole.take(i + 1) + insert_line(whole.skip(i + 1), x@));
        }
        i = i + 1;
    }
    proof {
        assert(whole.skip(whole.len() as int) =~= Seq::<Seq<char>>::empty());
        assert(insert_line(whole.skip(whole.len() as int), x@) == seq![x@]);
    }
    let ghost before = v@;
    v.push(x);
    proof {
        assert(whole.take(whole.len() as int) =~= whole);
        assert(views_of(before.push(x)) =~= whole + seq![x@]);
        assert(whole + seq![x@] =~= whole.take(whole.len() as int) + seq![x@]);
    }
}

/// Trim one raw line and, when it is kept, fold it into the ordered list.
fn absorb_line(v: &mut Vec<String>, line: &str)
    ensures
        views_of(final(v)@) == (if keep_spec(trim_spec(line@)) {
            insert_line(views_of(old(v)@), trim_spec(line@))
        } else {
            views_of(old(v)@)
        }),
{
    let t = trim_of(line);
    if t.unicode_len() > 0 && t.get_char(0) != '#' {
        insert_pattern(v, t.to_owned());
    }
}

/// Merge existing ignore-file text with new patterns into the canonical text
/// that `merge_spec` describes: lines and patterns are trimmed, blank and
/// comment lines dropped, duplicates removed, non-negation patterns sorted
/// first and negation patterns sorted after them, and the result rendered
/// with one trailing newline unless it is empty.
pub fn merge(text: &str, args: &Vec<String>) -> (r: String)
    ensures
        r@ == merge_spec(text@, views_of(args@)),
{
    let raw: Vec<String> = lines_of(text);
    let ghost all = split_lines(text@) + views_of(args@);
    let mut kept: Vec<String> = Vec::new();
    let mut i: usize = 0;
    proof {
        assert(all.take(0) =~= Seq::<Seq<char>>::empty());
        assert(views_of(kept@) =~= Seq::<Seq<char>>::empty());
    }
    while i < raw.len()
        invariant
            0 <= i <= raw@.len(),
            views_of(raw@) == split_lines(text@),
            all == split_lines(text@) + views_of(args@),
            views_of(kept@) == ordered_output(norm_lines(all.take(i as int))),
        decreases raw@.len() - i,
    {
        let ghost prefix = all.take(i as int);
        proof {
            assert(all[i as int] == views_of(raw@)[i as int]);
            assert(views_of(raw@)[i as int] == raw@[i as int]@);
            assert(all.take(i + 1) =~= prefix.push(raw@[i as int]@));
            let stepped = prefix.push(raw@[i as int]@);
            assert(stepped.drop_last() =~= prefix);
            assert(stepped.last() == raw@[i as int]@);
        }
        absorb_line(&mut kept, raw[i].as_str());
        proof {
            let t = trim_spec(raw@[i as int]@);
            let np = norm_lines(prefix);
            let stepped = all.take(i + 1);
            assert(stepped.drop_last() =~= prefix);
            if keep_spec(t) {
                assert(norm_lines(stepped) == np.push(t));
                assert(np.push(t).drop_last() =~= np);
                assert(np.push(t).last() == t);
                assert(ordered_output(np.push(t)) == insert_line(ordered_output(np), t));
            } else {
                assert(norm_lines(stepped) == np);
            }
        }
        i = i + 1;
    }
    let mut j: usize = 0;
    proof {
        assert(all.take(raw@.len() as int) =~= split_lines(text@) + views_of(args@).take(0));
    }
    while j < args.len()
        invariant
            0 <= j <= args@.len(),
            views_of(raw@) == split_lines(text@),
            all == split_lines(text@) + views_of(args@),
            views_of(kept@) == ordered_output(
                norm_lines(split_lines(text@) + views_of(args@).take(j as int)),
            ),
        decreases args@.len() - j,
    {
        let ghost prefix = split_lines(text@) + views_of(args@).take(j as int);
        proof {
            assert(views_of(args@)[j as int] == args@[j as int]@);
            let stepped = prefix.push(args@[j as int]@);
            assert(split_lines(text@) + views_of(args@).take(j + 1) =~= stepped);
            assert(stepped.drop_last() =~= prefix);
            assert(stepped.last() == args@[j as int]@);
        }
        absorb_line(&mut kept, args[j].as_str());
        proof {
            let t = trim_spec(args@[j as int]@);
            let np = norm_lines(prefix);
            let stepped = split_lines(text@) + views_of(args@).take(j + 1);
            assert(stepped.drop_last() =~= prefix);
            if keep_spec(t) {
                assert(norm_lines(stepped) == np.push(t));
                assert(np.push(t).drop_last() =~= np);
                assert(np.push(t).last() == t);
                assert(ordered_output(np.push(t)) == insert_line(ordered_output(np), t));
            } else {
                assert(norm_lines(stepped) == np);
            }
        }
        j = j + 1;
    }
    proof {
        assert(split_lines(text@) + views_of(args@).take(args@.len() as int) =~= split_lines(
            text@,
        ) + views_of(args@));
    }
    render_lines(&kept)
}

proof fn lemma_norm_identity(ss: Seq<Seq<char>>)
    requires
        forall|j: int|
            0 <= j < ss.len() ==> trim_spec(#[trigger] ss[j]) == ss[j] && keep_spec(ss[j]),
    ensures
        norm_lines(ss) == ss,
    decreases ss.len(),
{
    if ss.len() > 0 {
        assert(forall|j: int| 0 <= j < ss.len() - 1 ==> ss.drop_last()[j] == ss[j]);
        lemma_norm_identity(ss.drop_last());
        assert(trim_spec(ss.last()) == ss.last() && keep_spec(ss.last()));
        assert(norm_lines(ss) == ss.drop_last().push(ss.last()));
        assert(ss.drop_last().push(ss.last()) =~= ss);
    }
}

/// Under the assumptions of the laws below, the lines of the merged text are
/// exactly the canonical form of the normalized input, and each of them is a
/// kept, trimmed, newline-free pattern.
pub proof fn lemma_merged_lines(text: Seq<char>, args: Seq<Seq<char>>)
    requires
        forall|i: int|
            0 <= i < args.len() && keep_spec(trim_spec(#[trigger] args[i])) ==> char_free(
                trim_spec(args[i]),
                '\n',
            ),
    ensures
        split_lines(merge_spec(text, args)) == ordered_output(
            norm_lines(split_lines(text) + args),
        ),
        forall|j: int|
            0 <= j < ordered_output(norm_lines(split_lines(text) + args)).len() ==> {
                let y = #[trigger] ordered_output(norm_lines(split_lines(text) + args))[j];
                keep_spec(y) && trim_spec(y) == y && char_free(y, '\n')
            },
{
    let sl = split_lines(text);
    let raw = sl + args;
    let n = norm_lines(raw);
    let c = ordered_output(n);
    lemma_split_lines_free(text);
    assert forall|j: int| 0 <= j < c.len() implies {
        let y = #[trigger] c[j];
        keep_spec(y) && trim_spec(y) == y && char_free(y, '\n')
    } by {
        let y = c[j];
        assert(c.contains(y));
        lemma_ordered_output_contains(n, y);
        lemma_norm_contains_fwd(raw, y);
        let i = choose|i: int| 0 <= i < raw.len() && trim_spec(#[trigger] raw[i]) == y;
        lemma_trim_idem(raw[i]);
        if i < sl.len() {
            assert(raw[i] == sl[i]);
            assert(char_free(sl[i], '\n'));
            lemma_trim_char_free(raw[i], '\n');
        } else {
            assert(raw[i] == args[i - sl.len()]);
            assert(keep_spec(trim_spec(args[i - sl.len()])));
        }
    }
    lemma_split_lines_render(c);
}

/// Merging is idempotent: merging the merged text with no new patterns gives
/// it back unchanged. (A pattern whose kept, trimmed form still holds a
/// newline would be split into several lines by the rendering, so such
/// patterns are excluded.)
pub proof fn lemma_merge_idempotent(text: Seq<char>, args: Seq<Seq<char>>)
    requires
        forall|i: int|
            0 <= i < args.len() && keep_spec(trim_spec(#[trigger] args[i])) ==> char_free(
                trim_spec(args[i]),
                '\n',
            ),
    ensures
        merge_spec(merge_spec(text, args), Seq::<Seq<char>>::empty()) == merge_spec(text, args),
{
    let sl = split_lines(text);
    let n = norm_lines(sl + args);
    let c = ordered_output(n);
    let out = merge_spec(text, args);
    lemma_merged_lines(text, args);
    assert(split_lines(out) == c);
    assert(split_lines(out) + Seq::<Seq<char>>::empty() =~= c);
    lemma_norm_identity(c);
    lemma_ordered_output_sorted(n);
    lemma_ordered_output_sorted(c);
    assert forall|y: Seq<char>| ordered_output(c).contains(y) <==> c.contains(y) by {
        lemma_ordered_output_contains(c, y);
    }
    lemma_sorted_same_eq(ordered_output(c), c);
}

/// Merging depends only on which patterns are given, not on their order or
/// multiplicity.
pub proof fn lemma_merge_same_args(text: Seq<char>, p: Seq<Seq<char>>, q: Seq<Seq<char>>)
    requires
        forall|y: Seq<char>| p.contains(y) <==> q.contains(y),
    ensures
        merge_spec(text, p) == merge_spec(text, q),
{
    let sl = split_lines(text);
    let r1 = sl + p;
    let r2 = sl + q;
    assert forall|y: Seq<char>| norm_lines(r1).contains(y) <==> norm_lines(r2).contains(y) by {
        if norm_lines(r1).contains(y) {
            lemma_norm_contains_fwd(r1, y);
            let i = choose|i: int| 0 <= i < r1.len() && trim_spec(#[trigger] r1[i]) == y;
            if i < sl.len() {
                assert(r2[i] == r1[i]);
                lemma_norm_contains_bwd(r2, i);
            } else {
                assert(r1[i] == p[i - sl.len()]);
                assert(p.contains(p[i - sl.len()]));
                assert(q.contains(p[i - sl.len()]));
                let k = choose|k: int| 0 <= k < q.len() && q[k] == p[i - sl.len()];
                assert(r2[sl.len() + k] == q[k]);
                lemma_norm_contains_bwd(r2, sl.len() + k);
            }
        }
        if norm_lines(r2).contains(y) {
            lemma_norm_contains_fwd(r2, y);
            let i = choose|i: int| 0 <= i < r2.len() && trim_spec(#[trigger] r2[i]) == y;
            if i < sl.len() {
                assert(r1[i] == r2[i]);
                lemma_norm_contains_bwd(r1, i);
            } else {
                assert(r2[i] == q[i - sl.len()]);
                assert(q.contains(q[i - sl.len()]));
                assert(p.contains(q[i - sl.len()]));
                let k = choose|k: int| 0 <= k < p.len() && p[k] == q[i - sl.len()];
                assert(r1[sl.len() + k] == p[k]);
                lemma_norm_contains_bwd(r1, sl.len() + k);
            }
        }
    }
    lemma_ordered_output_same(norm_lines(r1), norm_lines(r2));
}

/// The order in which two new patterns are given does not matter.
pub proof fn lemma_merge_commutative(text: Seq<char>, a: Seq<char>, b: Seq<char>)
    ensures
        merge_spec(text, seq![a, b]) == merge_spec(text, seq![b, a]),
{
    let p = seq![a, b];
    let q = seq![b, a];
    assert forall|y: Seq<char>| p.contains(y) <==> q.contains(y) by {
        assert(p[0] == a && p[1] == b && q[0] == b && q[1] == a);
        if p.contains(y) {
            let k = choose|k: int| 0 <= k < p.len() && p[k] == y;
            assert(q[1 - k] == y);
        }
        if q.contains(y) {
            let k = choose|k: int| 0 <= k < q.len() && q[k] == y;
            assert(p[1 - k] == y);
        }
    }
    lemma_merge_same_args(text, p, q);
}

/// No line of the merged text is blank, surrounded by whitespace, or a
/// comment, wherever it came from.
pub proof fn lemma_merge_strips(text: Seq<char>, args: Seq<Seq<char>>)
    requires
        forall|i: int|
            0 <= i < args.len() && keep_spec(trim_spec(#[trigger] args[i])) ==> char_free(
                trim_spec(args[i]),
                '\n',
            ),
    ensures
        forall|l: Seq<char>|
            split_lines(merge_spec(text, args)).contains(l) ==> trim_spec(l) == l && l.len() > 0
                && l[0] != '#',
{
    lemma_merged_lines(text, args);
    let c = ordered_output(norm_lines(split_lines(text) + args));
    assert forall|l: Seq<char>| split_lines(merge_spec(text, args)).contains(l) implies trim_spec(
        l,
    ) == l && l.len() > 0 && l[0] != '#' by {
        assert(c.contains(l));
        let j = choose|j: int| 0 <= j < c.len() && c[j] == l;
        assert(keep_spec(c[j]) && trim_spec(c[j]) == c[j]);
    }
}

/// In the merged text every non-negation pattern comes before every negation
/// pattern: once a line starts with `!`, all later lines do.
pub proof fn lemma_merge_negations_last(text: Seq<char>, args: Seq<Seq<char>>)
    requires
        forall|i: int|
            0 <= i < args.len() && keep_spec(trim_spec(#[trigger] args[i])) ==> char_free(
                trim_spec(args[i]),
                '\n',
            ),
    ensures
        forall|i: int, j: int|
            0 <= i < j < split_lines(merge_spec(text, args)).len() && is_neg(
                #[trigger] split_lines(merge_spec(text, args))[i],
            ) ==> is_neg(#[trigger] split_lines(merge_spec(text, args))[j]),
{
    lemma_merged_lines(text, args);
    let n = norm_lines(split_lines(text) + args);
    let c = ordered_output(n);
    lemma_ordered_output_sorted(n);
    assert forall|i: int, j: int|
        0 <= i < j < split_lines(merge_spec(text, args)).len() && is_neg(
            #[trigger] split_lines(merge_spec(text, args))[i],
        ) implies is_neg(#[trigger] split_lines(merge_spec(text, args))[j]) by {
        assert(key_lt(c[i], c[j]));
    }
}

/// When every new pattern already stands, normalized, among the text's own
/// normalized lines, merging a canonical text changes nothing, so no write
/// happens. (A text that is not in canonical form is rewritten even without
/// new patterns, so canonical form is assumed.)
pub proof fn lemma_merge_no_op(text: Seq<char>, args: Seq<Seq<char>>)
    requires
        merge_spec(text, Seq::<Seq<char>>::empty()) == text,
        forall|i: int|
            0 <= i < args.len() ==> norm_lines(split_lines(text)).contains(
                trim_spec(#[trigger] args[i]),
            ),
    ensures
        merge_spec(text, args) == text,
{
    let sl = split_lines(text);
    assert(sl + Seq::<Seq<char>>::empty() =~= sl);
    let r1 = sl + args;
    assert forall|y: Seq<char>| norm_lines(r1).contains(y) <==> norm_lines(sl).contains(y) by {
        if norm_lines(r1).contains(y) {
            lemma_norm_contains_fwd(r1, y);
            let i = choose|i: int| 0 <= i < r1.len() && trim_spec(#[trigger] r1[i]) == y;
            if i < sl.len() {
                assert(r1[i] == sl[i]);
                lemma_norm_contains_bwd(sl, i);
            } else {
                assert(r1[i] == args[i - sl.len()]);
            }
        }
        if norm_lines(sl).contains(y) {
            lemma_norm_contains_fwd(sl, y);
            let i = choose|i: int| 0 <= i < sl.len() && trim_spec(#[trigger] sl[i]) == y;
            assert(r1[i] == sl[i]);
            lemma_norm_contains_bwd(r1, i);
        }
    }
    lemma_ordered_output_same(norm_lines(r1), norm_lines(sl));
    assert(merge_spec(text, args) == merge_spec(text, Seq::<Seq<char>>::empty()));
}

} // verus!
