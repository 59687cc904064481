//! Character-level text model: whitespace classification, trimming,
//! lexicographic ordering of character sequences, and splitting text into
//! lines, with executable counterparts proved against the model.

use vstd::prelude::*;
use vstd::string::StrSliceExecFns;
use vstd::string::StringExecFns;

verus! {

/// The character sequences behind a sequence of strings.
pub open spec fn views_of(ps: Seq<String>) -> Seq<Seq<char>> {
    ps.map_values(|p: String| p@)
}

/// The Unicode `White_Space` characters: exactly the set of characters that
/// `str::trim` removes at either end of a string.
pub open spec fn is_ws_char(c: char) -> bool {
    c == ' ' || c == '\t' || c == '\n' || c == '\r' || c == '\u{000B}' || c == '\u{000C}'
        || c == '\u{0085}' || c == '\u{00A0}' || c == '\u{1680}' || (0x2000 <= c as u32
        && c as u32 <= 0x200A) || c == '\u{2028}' || c == '\u{2029}' || c == '\u{202F}'
        || c == '\u{205F}' || c == '\u{3000}'
}

pub fn is_ws(c: char) -> (b: bool)
    ensures
        b == is_ws_char(c),
{
    let u = c as u32;
    u == 0x20 || u == 0x09 || u == 0x0A || u == 0x0D || u == 0x0B || u == 0x0C || u == 0x85
        || u == 0xA0 || u == 0x1680 || (0x2000 <= u && u <= 0x200A) || u == 0x2028 || u == 0x2029
        || u == 0x202F || u == 0x205F || u == 0x3000
}

/// `s` without its leading whitespace.
pub open spec fn trim_front(s: Seq<char>) -> Seq<char>
    decreases s.len(),
{
    if s.len() > 0 && is_ws_char(s[0]) {
        trim_front(s.drop_first())
    } else {
        s
    }
}

/// `s` without its trailing whitespace.
pub open spec fn trim_back(s: Seq<char>) -> Seq<char>
    decreases s.len(),
{
    if s.len() > 0 && is_ws_char(s.last()) {
        trim_back(s.drop_last())
    } else {
        s
    }
}

/// `s` without leading and trailing whitespace: the model of `str::trim`.
pub open spec fn trim_spec(s: Seq<char>) -> Seq<char> {
    trim_back(trim_front(s))
}

proof fn lemma_trim_front_subrange(s: Seq<char>, i: int)
    requires
        0 <= i <= s.len(),
        forall|k: int| 0 <= k < i ==> is_ws_char(s[k]),
    ensures
        trim_front(s) == trim_front(s.subrange(i, s.len() as int)),
    decreases i,
{
    if i > 0 {
        assert(s.subrange(0, s.len() as int) =~= s);
        lemma_trim_front_subrange(s, i - 1);
        let t = s.subrange(i - 1, s.len() as int);
        if t.len() > 0 && is_ws_char(t[0]) {
            assert(t.drop_first() =~= s.subrange(i, s.len() as int));
        }
    } else {
        assert(s.subrange(0, s.len() as int) =~= s);
    }
}

proof fn lemma_trim_back_subrange(s: Seq<char>, j: int)
    requires
        0 <= j <= s.len(),
        forall|k: int| j <= k < s.len() ==> is_ws_char(s[k]),
    ensures
        trim_back(s) == trim_back(s.subrange(0, j)),
    decreases s.len() - j,
{
    if j < s.len() {
        lemma_trim_back_subrange(s.drop_last(), j);
        assert(s.drop_last() =~= s.subrange(0, s.len() - 1));
        assert(s.drop_last().subrange(0, j) =~= s.subrange(0, j));
    } else {
        assert(s.subrange(0, s.len() as int) =~= s);
    }
}

/// Trim a string: the result is `s` with leading and trailing whitespace
/// removed, as `trim_spec` describes.
pub fn trim_of<'a>(s: &'a str) -> (r: &'a str)
    ensures
        r@ == trim_spec(s@),
{
    let n = s.unicode_len();
    let mut i: usize = 0;
    while i < n && is_ws(s.get_char(i))
        invariant
            0 <= i <= n == s@.len(),
            forall|k: int| 0 <= k < i ==> is_ws_char(s@[k]),
        decreases n - i,
    {
        i = i + 1;
    }
    proof {
        lemma_trim_front_subrange(s@, i as int);
    }
    let ghost front = s@.subrange(i as int, s@.len() as int);
    proof {
        if front.len() > 0 {
            assert(!is_ws_char(front[0]));
        }
        assert(trim_front(s@) == front);
    }
    let mut j: usize = n;
    while j > i && is_ws(s.get_char(j - 1))
        invariant
            0 <= i <= j <= n == s@.len(),
            forall|k: int| j <= k < n ==> is_ws_char(s@[k]),
        decreases j,
    {
        j = j - 1;
    }
    proof {
        assert(forall|k: int| 0 <= k < front.len() ==> front[k] == s@[k + i]);
        lemma_trim_back_subrange(front, j - i);
        assert(front.subrange(0, j - i) =~= s@.subrange(i as int, j as int));
        let t = s@.subrange(i as int, j as int);
        if t.len() > 0 {
            assert(!is_ws_char(t.last()));
        }
        assert(trim_back(t) == t);
    }
    s.substring_char(i, j)
}

/// `p` holds no occurrence of the character `c`.
pub open spec fn char_free(p: Seq<char>, c: char) -> bool {
    forall|k: int| 0 <= k < p.len() ==> p[k] != c
}

proof fn lemma_trim_front_suffix(s: Seq<char>)
    ensures
        trim_front(s).len() <= s.len(),
        trim_front(s) == s.subrange(s.len() - trim_front(s).len(), s.len() as int),
    decreases s.len(),
{
    if s.len() > 0 && is_ws_char(s[0]) {
        lemma_trim_front_suffix(s.drop_first());
        let t = trim_front(s);
        assert(s.drop_first().subrange(s.drop_first().len() - t.len(), s.drop_first().len() as int)
            =~= s.subrange(s.len() - t.len(), s.len() as int));
    } else {
        assert(s.subrange(0, s.len() as int) =~= s);
    }
}

proof fn lemma_trim_back_prefix(s: Seq<char>)
    ensures
        trim_back(s).len() <= s.len(),
        trim_back(s) == s.subrange(0, trim_back(s).len() as int),
    decreases s.len(),
{
    if s.len() > 0 && is_ws_char(s.last()) {
        lemma_trim_back_prefix(s.drop_last());
        let t = trim_back(s);
        assert(s.drop_last().subrange(0, t.len() as int) =~= s.subrange(0, t.len() as int));
    } else {
        assert(s.subrange(0, s.len() as int) =~= s);
    }
}

proof fn lemma_trim_front_head(s: Seq<char>)
    ensures
        trim_front(s).len() > 0 ==> !is_ws_char(trim_front(s)[0]),
    decreases s.len(),
{
    if s.len() > 0 && is_ws_char(s[0]) {
        lemma_trim_front_head(s.drop_first());
    }
}

proof fn lemma_trim_back_last(s: Seq<char>)
    ensures
        trim_back(s).len() > 0 ==> !is_ws_char(trim_back(s).last()),
    decreases s.len(),
{
    if s.len() > 0 && is_ws_char(s.last()) {
        lemma_trim_back_last(s.drop_last());
    }
}

/// Trimming is idempotent: trimming an already trimmed string changes nothing.
pub proof fn lemma_trim_idem(s: Seq<char>)
    ensures
        trim_spec(trim_spec(s)) == trim_spec(s),
{
    let f = trim_front(s);
    let t = trim_back(f);
    lemma_trim_front_head(s);
    lemma_trim_back_prefix(f);
    lemma_trim_back_last(f);
    if t.len() > 0 {
        assert(t[0] == f[0]);
        assert(!is_ws_char(t[0]));
    }
    assert(trim_front(t) == t);
    assert(trim_back(t) == t);
}

/// Trimming introduces no character: a character absent from `s` is absent
/// from its trimmed form.
pub proof fn lemma_trim_char_free(s: Seq<char>, c: char)
    requires
        char_free(s, c),
    ensures
        char_free(trim_spec(s), c),
{
    let f = trim_front(s);
    let t = trim_back(f);
    lemma_trim_front_suffix(s);
    lemma_trim_back_prefix(f);
    assert forall|k: int| 0 <= k < t.len() implies t[k] != c by {
        assert(t[k] == f[k]);
        assert(f[k] == s[k + s.len() - f.len()]);
    }
}

/// Strict lexicographic order on character sequences by code point: the order
/// in which patterns are sorted before rendering.
pub open spec fn lex_lt(a: Seq<char>, b: Seq<char>) -> bool
    decreases a.len(),
{
    if b.len() == 0 {
        false
    } else if a.len() == 0 {
        true
    } else if (a[0] as u32) < (b[0] as u32) {
        true
    } else if (a[0] as u32) > (b[0] as u32) {
        false
    } else {
        lex_lt(a.drop_first(), b.drop_first())
    }
}

/// `lex_lt` is irreflexive.
pub proof fn lemma_lex_irrefl(a: Seq<char>)
    ensures
        !lex_lt(a, a),
    decreases a.len(),
{
    if a.len() > 0 {
        lemma_lex_irrefl(a.drop_first());
    }
}

/// `lex_lt` orders any two distinct sequences one way or the other.
pub proof fn lemma_lex_connected(a: Seq<char>, b: Seq<char>)
    requires
        a != b,
    ensures
        lex_lt(a, b) || lex_lt(b, a),
    decreases a.len(),
{
    if a.len() == 0 {
        assert(b.len() > 0) by {
            if b.len() == 0 {
                assert(a =~= b);
            }
        }
    } else if b.len() == 0 {
    } else if a[0] as u32 == b[0] as u32 {
        assert(a[0] == b[0]) by {
            vstd::utf8::char_u32_cast(a[0], a[0] as u32);
            vstd::utf8::char_u32_cast(b[0], b[0] as u32);
        }
        if a.drop_first() == b.drop_first() {
            assert(a.drop_first().len() == b.drop_first().len());
            assert(a.len() == b.len());
            assert forall|k: int| 0 <= k < a.len() implies a[k] == b[k] by {
                if k > 0 {
                    assert(a.drop_first()[k - 1] == a[k]);
                    assert(b.drop_first()[k - 1] == b[k]);
                }
            }
            assert(a =~= b);
        } else {
            lemma_lex_connected(a.drop_first(), b.drop_first());
        }
    }
}

/// `lex_lt` is transitive.
pub proof fn lemma_lex_trans(a: Seq<char>, b: Seq<char>, c: Seq<char>)
    requires
        lex_lt(a, b),
        lex_lt(b, c),
    ensures
        lex_lt(a, c),
    decreases a.len(),
{
    if a.len() > 0 && b.len() > 0 && c.len() > 0 {
        if a[0] as u32 == b[0] as u32 && b[0] as u32 == c[0] as u32 {
            lemma_lex_trans(a.drop_first(), b.drop_first(), c.drop_first());
        }
    }
}

/// Compare two strings in the `lex_lt` order.
pub fn lex_lt_str(a: &str, b: &str) -> (r: bool)
    ensures
        r == lex_lt(a@, b@),
{
    let an = a.unicode_len();
    let bn = b.unicode_len();
    let mut i: usize = 0;
    proof {
        assert(a@.skip(0) =~= a@);
        assert(b@.skip(0) =~= b@);
    }
    loop
        invariant
            i <= an == a@.len(),
            i <= bn == b@.len(),
            lex_lt(a@, b@) == lex_lt(a@.skip(i as int), b@.skip(i as int)),
        decreases an - i,
    {
        let ghost sa = a@.skip(i as int);
        let ghost sb = b@.skip(i as int);
        if i >= bn {
            assert(sb.len() == 0);
            return false;
        }
        if i >= an {
            assert(sa.len() == 0 && sb.len() > 0);
            return true;
        }
        let ca = a.get_char(i);
        let cb = b.get_char(i);
        assert(sa[0] == a@[i as int] && sb[0] == b@[i as int]);
        if (ca as u32) < (cb as u32) {
            return true;
        }
        if (ca as u32) > (cb as u32) {
            return false;
        }
        proof {
            assert(sa.drop_first() =~= a@.skip(i + 1));
            assert(sb.drop_first() =~= b@.skip(i + 1));
        }
        i = i + 1;
    }
}

/// Equality test on strings, exact over their character sequences.
pub fn str_eq(a: &str, b: &str) -> (r: bool)
    ensures
        r == (a@ == b@),
{
    let an = a.unicode_len();
    let bn = b.unicode_len();
    if an != bn {
        proof {
            if a@ == b@ {
                assert(a@.len() == b@.len());
            }
        }
        return false;
    }
    let mut i: usize = 0;
    while i < an
        invariant
            0 <= i <= an == a@.len() == b@.len(),
            forall|k: int| 0 <= k < i ==> a@[k] == b@[k],
        decreases an - i,
    {
        let ca = a.get_char(i);
        let cb = b.get_char(i);
        if ca != cb {
            return false;
        }
        i = i + 1;
    }
    proof {
        assert(a@ =~= b@);
    }
    true
}

/// Split `s` at every occurrence of `c`. The result always has one part more
/// than `s` has occurrences of `c`; adjacent occurrences yield empty parts.
pub open spec fn full_split(s: Seq<char>, c: char) -> Seq<Seq<char>>
    decreases s.len(),
{
    if s.len() == 0 {
        seq![s]
    } else if s[0] == c {
        seq![Seq::<char>::empty()] + full_split(s.drop_first(), c)
    } else {
        let rest = full_split(s.drop_first(), c);
        seq![seq![s[0]] + rest[0]] + rest.drop_first()
    }
}

/// The lines of a text, as `str::lines` yields them for texts with `\n` line
/// endings: split at `\n`, with no empty final line when the text ends in `\n`.
pub open spec fn split_lines(t: Seq<char>) -> Seq<Seq<char>> {
    if t.len() == 0 {
        Seq::<Seq<char>>::empty()
    } else {
        let parts = full_split(t, '\n');
        if parts.last() == Seq::<char>::empty() {
            parts.drop_last()
        } else {
            parts
        }
    }
}

/// A sequence of lines as file text: every line followed by one `\n`, so a
/// non-empty rendering ends in exactly one `\n` and an empty one is empty.
pub open spec fn render(ss: Seq<Seq<char>>) -> Seq<char>
    decreases ss.len(),
{
    if ss.len() == 0 {
        Seq::<char>::empty()
    } else {
        ss[0] + seq!['\n'] + render(ss.drop_first())
    }
}

proof fn lemma_full_split_len(s: Seq<char>, c: char)
    ensures
        full_split(s, c).len() >= 1,
    decreases s.len(),
{
    if s.len() > 0 {
        lemma_full_split_len(s.drop_first(), c);
    }
}

proof fn lemma_split_free(s: Seq<char>, c: char)
    requires
        char_free(s, c),
    ensures
        full_split(s, c) == seq![s],
    decreases s.len(),
{
    if s.len() > 0 {
        lemma_split_free(s.drop_first(), c);
        let rest = full_split(s.drop_first(), c);
        assert(rest[0] == s.drop_first());
        assert(seq![s[0]] + s.drop_first() =~= s);
        assert(rest.drop_first() =~= Seq::<Seq<char>>::empty());
        assert(full_split(s, c) =~= seq![s]);
    }
}

proof fn lemma_split_concat(x: Seq<char>, y: Seq<char>, c: char)
    requires
        char_free(x, c),
    ensures
        full_split(x + seq![c] + y, c) == seq![x] + full_split(y, c),
    decreases x.len(),
{
    let s = x + seq![c] + y;
    if x.len() == 0 {
        assert(s[0] == c);
        assert(s.drop_first() =~= y);
        assert(x =~= Seq::<char>::empty());
        assert(full_split(s, c) =~= seq![x] + full_split(y, c));
    } else {
        assert(s[0] == x[0] && s[0] != c);
        assert(s.drop_first() =~= x.drop_first() + seq![c] + y);
        lemma_split_concat(x.drop_first(), y, c);
        let rest = full_split(s.drop_first(), c);
        assert(rest == seq![x.drop_first()] + full_split(y, c));
        assert(rest[0] == x.drop_first());
        assert(seq![s[0]] + rest[0] =~= x);
        assert(rest.drop_first() =~= full_split(y, c));
        assert(full_split(s, c) =~= seq![x] + full_split(y, c));
    }
}

proof fn lemma_full_split_parts_free(s: Seq<char>, c: char)
    ensures
        forall|j: int|
            0 <= j < full_split(s, c).len() ==> char_free(#[trigger] full_split(s, c)[j], c),
    decreases s.len(),
{
    if s.len() > 0 {
        lemma_full_split_parts_free(s.drop_first(), c);
        let rest = full_split(s.drop_first(), c);
        if s[0] == c {
            assert forall|j: int| 0 <= j < full_split(s, c).len() implies char_free(
                full_split(s, c)[j],
                c,
            ) by {
                if j > 0 {
                    assert(full_split(s, c)[j] == rest[j - 1]);
                }
            }
        } else {
            assert forall|j: int| 0 <= j < full_split(s, c).len() implies char_free(
                full_split(s, c)[j],
                c,
            ) by {
                if j == 0 {
                    let p = seq![s[0]] + rest[0];
                    lemma_full_split_len(s.drop_first(), c);
                    assert(char_free(rest[0], c));
                    assert forall|k: int| 0 <= k < p.len() implies p[k] != c by {
                        if k > 0 {
                            assert(p[k] == rest[0][k - 1]);
                        }
                    }
                } else {
                    assert(full_split(s, c)[j] == rest.drop_first()[j - 1]);
                    assert(rest.drop_first()[j - 1] == rest[j]);
                }
            }
        }
    }
}

/// The lines of a text hold no `\n`.
pub proof fn lemma_split_lines_free(t: Seq<char>)
    ensures
        forall|j: int|
            0 <= j < split_lines(t).len() ==> char_free(#[trigger] split_lines(t)[j], '\n'),
{
    lemma_full_split_parts_free(t, '\n');
    if t.len() > 0 {
        let parts = full_split(t, '\n');
        if parts.last() == Seq::<char>::empty() {
            assert forall|j: int| 0 <= j < split_lines(t).len() implies char_free(
                split_lines(t)[j],
                '\n',
            ) by {
                assert(split_lines(t)[j] == parts[j]);
            }
        }
    }
}

proof fn lemma_render_push(ss: Seq<Seq<char>>, x: Seq<char>)
    ensures
        render(ss.push(x)) == render(ss) + x + seq!['\n'],
    decreases ss.len(),
{
    if ss.len() == 0 {
        assert(ss.push(x).drop_first() =~= Seq::<Seq<char>>::empty());
        assert(ss.push(x)[0] == x);
        assert(render(ss.push(x)) == x + seq!['\n'] + render(Seq::<Seq<char>>::empty()));
        assert(x + seq!['\n'] + Seq::<char>::empty() =~= Seq::<char>::empty() + x + seq!['\n']);
    } else {
        assert(ss.push(x).drop_first() =~= ss.drop_first().push(x));
        lemma_render_push(ss.drop_first(), x);
        assert(ss.push(x)[0] == ss[0]);
        let r1 = render(ss.drop_first());
        assert(ss[0] + seq!['\n'] + (r1 + x + seq!['\n']) =~= (ss[0] + seq!['\n'] + r1) + x
            + seq!['\n']);
    }
}

/// Split a string at every occurrence of `sep`, as `full_split` describes.
pub fn split_all(s: &str, sep: char) -> (parts: Vec<String>)
    ensures
        views_of(parts@) == full_split(s@, sep),
{
    let n = s.unicode_len();
    let mut parts: Vec<String> = Vec::new();
    let mut start: usize = 0;
    let mut i: usize = 0;
    proof {
        assert(s@.subrange(0, n as int) =~= s@);
        assert(views_of(parts@) =~= Seq::<Seq<char>>::empty());
    }
    while i < n
        invariant
            0 <= start <= i <= n == s@.len(),
            forall|k: int| start <= k < i ==> s@[k] != sep,
            full_split(s@, sep) == views_of(parts@) + full_split(
                s@.subrange(start as int, n as int),
                sep,
            ),
        decreases n - i,
    {
        if s.get_char(i) == sep {
            let piece = s.substring_char(start, i).to_owned();
            proof {
                let seg = s@.subrange(start as int, i as int);
                let tail = s@.subrange(i + 1, n as int);
                assert(s@.subrange(start as int, n as int) =~= seg + seq![sep] + tail);
                lemma_split_concat(seg, tail, sep);
                assert(views_of(parts@.push(piece)) =~= views_of(parts@) + seq![seg]);
                assert(views_of(parts@) + (seq![seg] + full_split(tail, sep)) =~= (views_of(parts@)
                    + seq![seg]) + full_split(tail, sep));
            }
            parts.push(piece);
            start = i + 1;
        }
        i = i + 1;
    }
    let piece = s.substring_char(start, n).to_owned();
    proof {
        let seg = s@.subrange(start as int, n as int);
        lemma_split_free(seg, sep);
        assert(views_of(parts@.push(piece)) =~= views_of(parts@) + seq![seg]);
    }
    parts.push(piece);
    parts
}

/// Split a text into its lines, as `split_lines` describes.
pub fn lines_of(s: &str) -> (r: Vec<String>)
    ensures
        views_of(r@) == split_lines(s@),
{
    let n = s.unicode_len();
    if n == 0 {
        let r: Vec<String> = Vec::new();
        proof {
            assert(views_of(r@) =~= split_lines(s@));
        }
        return r;
    }
    let mut parts = split_all(s, '\n');
    proof {
        lemma_full_split_len(s@, '\n');
        assert(views_of(parts@).len() == parts@.len());
    }
    let m = parts.len();
    if parts[m - 1].as_str().unicode_len() == 0 {
        proof {
            let full = full_split(s@, '\n');
            assert(full[m - 1] == parts@[m - 1]@);
            assert(parts@[m - 1]@ =~= Seq::<char>::empty());
            assert(full.last() == Seq::<char>::empty());
        }
        let ghost before = parts@;
        parts.pop();
        proof {
            assert(parts@ =~= before.drop_last());
            assert(views_of(before.drop_last()) =~= full_split(s@, '\n').drop_last());
        }
    }
    parts
}

/// Render a sequence of lines as file text, as `render` describes.
pub fn render_lines(v: &Vec<String>) -> (r: String)
    ensures
        r@ == render(views_of(v@)),
{
    let mut out = String::new();
    let mut i: usize = 0;
    proof {
        assert(views_of(v@).take(0) =~= Seq::<Seq<char>>::empty());
    }
    while i < v.len()
        invariant
            0 <= i <= v@.len(),
            out@ == render(views_of(v@).take(i as int)),
        decreases v@.len() - i,
    {
        out.append(v[i].as_str());
        out.append("\n");
        proof {
            reveal_strlit("\n");
            assert("\n"@ =~= seq!['\n']);
            lemma_render_push(views_of(v@).take(i as int), views_of(v@)[i as int]);
            assert(views_of(v@).take(i + 1) =~= views_of(v@).take(i as int).push(
                views_of(v@)[i as int],
            ));
        }
        i = i + 1;
    }
    proof {
        assert(views_of(v@).take(v@.len() as int) =~= views_of(v@));
    }
    out
}

/// Rendering then splitting gives the lines back, provided no line holds `\n`.
pub proof fn lemma_split_lines_render(ss: Seq<Seq<char>>)
    requires
        forall|j: int| 0 <= j < ss.len() ==> char_free(#[trigger] ss[j], '\n'),
    ensures
        split_lines(render(ss)) == ss,
    decreases ss.len(),
{
    if ss.len() == 0 {
        assert(split_lines(render(ss)) =~= ss);
    } else {
        let x = ss[0];
        let rest = ss.drop_first();
        let tail = render(rest);
        assert(render(ss) == x + seq!['\n'] + tail);
        lemma_split_concat(x, tail, '\n');
        let parts = full_split(render(ss), '\n');
        assert(parts == seq![x] + full_split(tail, '\n'));
        assert(forall|j: int| 0 <= j < rest.len() ==> char_free(#[trigger] rest[j], '\n')) by {
            assert(forall|j: int| 0 <= j < rest.len() ==> rest[j] == ss[j + 1]);
        }
        lemma_split_lines_render(rest);
        lemma_full_split_len(tail, '\n');
        let ft = full_split(tail, '\n');
        assert(render(ss).len() > 0);
        if rest.len() == 0 {
            assert(tail.len() == 0);
            assert(ft == seq![tail]);
            assert(parts.last() == tail);
            assert(tail =~= Seq::<char>::empty());
            assert(parts.drop_last() =~= seq![x]);
            assert(split_lines(render(ss)) =~= ss);
        } else {
            assert(tail.len() > 0) by {
                assert(tail == rest[0] + seq!['\n'] + render(rest.drop_first()));
            }
            assert(parts.last() == ft.last()) by {
                assert(parts[parts.len() - 1] == ft[ft.len() - 1]);
            }
            if ft.last() == Seq::<char>::empty() {
                assert(rest == ft.drop_last());
                assert(parts.drop_last() =~= seq![x] + ft.drop_last());
                assert(split_lines(render(ss)) == seq![x] + rest);
                assert(seq![x] + rest =~= ss);
            } else {
                assert(rest == ft);
                assert(split_lines(render(ss)) == seq![x] + rest);
                assert(seq![x] + rest =~= ss);
            }
        }
    }
}

} // verus!
