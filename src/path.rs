use vstd::prelude::*;
use vstd::string::*;
use vstd::utf8::encode_utf8;

verus! {

/// The path separator.
pub const SEP: char = '/';

/// The escape character.
pub const ESC: char = '\\';

/// Whether the character that follows `s` is escaped: a `\` escapes the
/// character after it, unless it is itself escaped.
pub open spec fn escaping(s: Seq<char>) -> bool
    decreases s.len(),
{
    if s.len() == 0 {
        false
    } else {
        s.last() == ESC && !escaping(s.drop_last())
    }
}

/// Whether position `i` of `s` holds a separator that is not escaped.
pub open spec fn is_sep_at(s: Seq<char>, i: int) -> bool {
    0 <= i < s.len() && s[i] == SEP && !escaping(s.take(i))
}

/// `s` cut at each of its unescaped separators. There is always at least
/// one piece; the separators themselves belong to no piece.
pub open spec fn split_seps(s: Seq<char>) -> Seq<Seq<char>>
    decreases s.len(),
{
    if s.len() == 0 {
        seq![Seq::empty()]
    } else {
        let prev = split_seps(s.drop_last());
        if is_sep_at(s, s.len() - 1) {
            prev.push(Seq::empty())
        } else {
            prev.update(prev.len() - 1, prev.last().push(s.last()))
        }
    }
}

/// The one-character path `/`.
pub open spec fn root_seq() -> Seq<char> {
    seq![SEP]
}

/// Whether `s` begins with a separator.
pub open spec fn starts_with_sep(s: Seq<char>) -> bool {
    s.len() > 0 && s[0] == SEP
}

/// The components of `s`: the pieces between its unescaped separators,
/// without the empty piece before a leading separator (nor, for `/`
/// itself, the one after it).
pub open spec fn parts_of(s: Seq<char>) -> Seq<Seq<char>> {
    let all = split_seps(s);
    if s == root_seq() {
        all.skip(2)
    } else if starts_with_sep(s) {
        all.skip(1)
    } else {
        all
    }
}

/// A string is canonical when none of its components is empty.
pub open spec fn canonical(s: Seq<char>) -> bool {
    forall|i: int| 0 <= i < parts_of(s).len() ==> (#[trigger] parts_of(s)[i]).len() > 0
}

/// The non-empty pieces of `cs`, in order.
pub open spec fn nonempty(cs: Seq<Seq<char>>) -> Seq<Seq<char>>
    decreases cs.len(),
{
    if cs.len() == 0 {
        cs
    } else if cs.last().len() == 0 {
        nonempty(cs.drop_last())
    } else {
        nonempty(cs.drop_last()).push(cs.last())
    }
}

/// The pieces of `cs` joined with a separator between each two.
pub open spec fn join(cs: Seq<Seq<char>>) -> Seq<char>
    decreases cs.len(),
{
    if cs.len() == 0 {
        Seq::empty()
    } else if cs.len() == 1 {
        cs[0]
    } else {
        join(cs.drop_last()) + seq![SEP] + cs.last()
    }
}

/// `s` with its empty components removed: a leading separator is kept,
/// the non-empty components follow, one separator between each two.
pub open spec fn canonical_form(s: Seq<char>) -> Seq<char> {
    if s.len() == 0 {
        s
    } else if starts_with_sep(s) {
        root_seq() + join(nonempty(parts_of(s)))
    } else {
        join(nonempty(parts_of(s)))
    }
}

/// The string that a path made from `s` holds.
pub open spec fn path_of(s: Seq<char>) -> Seq<char> {
    if canonical(s) {
        s
    } else {
        canonical_form(s)
    }
}

/// What a `Path` may hold: a canonical string, or the empty one.
pub open spec fn valid_path(s: Seq<char>) -> bool {
    canonical(s) || s.len() == 0
}

// ---------------------------------------------------------------------
// Lemmas on the model.

/// Whether a position is an unescaped separator depends only on what
/// comes before it.
pub proof fn lemma_sep_prefix(s: Seq<char>, n: int, i: int)
    requires
        0 <= i < n <= s.len(),
    ensures
        is_sep_at(s.take(n), i) == is_sep_at(s, i),
{
    assert(s.take(n).take(i) =~= s.take(i));
}

/// A piece has no unescaped separator of its own.
pub open spec fn sep_free(c: Seq<char>) -> bool {
    forall|i: int| 0 <= i < c.len() ==> !#[trigger] is_sep_at(c, i)
}

/// Pieces that can be joined and split back: none has a separator, and
/// none but the last escapes what follows it.
pub open spec fn joinable(cs: Seq<Seq<char>>) -> bool {
    &&& forall|k: int| 0 <= k < cs.len() ==> sep_free(#[trigger] cs[k])
    &&& forall|k: int| 0 <= k < cs.len() - 1 ==> !escaping(#[trigger] cs[k])
}

pub proof fn lemma_split_len(s: Seq<char>)
    ensures
        split_seps(s).len() >= 1,
        starts_with_sep(s) ==> split_seps(s).len() >= 2,
    decreases s.len(),
{
    if s.len() > 0 {
        lemma_split_len(s.drop_last());
        if s.len() == 1 {
            assert(s.take(0) =~= Seq::<char>::empty());
            assert(s.drop_last() =~= Seq::<char>::empty());
        } else {
            assert(s.drop_last()[0] == s[0]);
        }
    }
}

/// After a separator, escaping starts afresh.
pub proof fn lemma_escaping_after_sep(p: Seq<char>, q: Seq<char>)
    ensures
        escaping(p + seq![SEP] + q) == escaping(q),
    decreases q.len(),
{
    let s = p + seq![SEP] + q;
    if q.len() == 0 {
        assert(s.drop_last() =~= p);
    } else {
        assert(s.drop_last() =~= p + seq![SEP] + q.drop_last());
        lemma_escaping_after_sep(p, q.drop_last());
    }
}

/// The last piece escapes what follows exactly when the whole does.
pub proof fn lemma_split_last_escaping(s: Seq<char>)
    ensures
        split_seps(s).len() >= 1,
        escaping(split_seps(s).last()) == escaping(s),
    decreases s.len(),
{
    lemma_split_len(s);
    if s.len() > 0 {
        lemma_split_last_escaping(s.drop_last());
        let prev = split_seps(s.drop_last());
        if !is_sep_at(s, s.len() - 1) {
            let l = prev.last().push(s.last());
            assert(l.drop_last() =~= prev.last());
            assert(s.take(s.len() - 1) =~= s.drop_last());
        }
    }
}

/// The pieces of any string can be joined back.
pub proof fn lemma_split_joinable(s: Seq<char>)
    ensures
        joinable(split_seps(s)),
    decreases s.len(),
{
    lemma_split_len(s);
    if s.len() > 0 {
        let s0 = s.drop_last();
        lemma_split_joinable(s0);
        lemma_split_len(s0);
        lemma_split_last_escaping(s0);
        assert(s.take(s.len() - 1) =~= s0);
        let prev = split_seps(s0);
        let cur = split_seps(s);
        if is_sep_at(s, s.len() - 1) {
            assert(cur =~= prev.push(Seq::empty()));
            assert forall|k: int| 0 <= k < cur.len() implies sep_free(#[trigger] cur[k]) by {
                if k < prev.len() {
                    assert(cur[k] == prev[k]);
                }
            }
        } else {
            let l = prev.last().push(s.last());
            assert(cur =~= prev.update(prev.len() - 1, l));
            assert(sep_free(l)) by {
                assert forall|i: int| 0 <= i < l.len() implies !#[trigger] is_sep_at(l, i) by {
                    if i < l.len() - 1 {
                        lemma_sep_prefix(l, l.len() - 1, i);
                        assert(l.take(l.len() - 1) =~= prev.last());
                    } else {
                        assert(l.take(i) =~= prev.last());
                    }
                }
            }
        }
    }
}

/// Splitting at a separator that nothing escapes splits each side.
pub proof fn lemma_split_concat(a: Seq<char>, b: Seq<char>)
    requires
        !escaping(a),
    ensures
        split_seps(a + seq![SEP] + b) =~= split_seps(a) + split_seps(b),
    decreases b.len(),
{
    let s = a + seq![SEP] + b;
    lemma_split_len(a);
    lemma_split_len(b);
    if b.len() == 0 {
        assert(s.drop_last() =~= a);
        assert(s.take(s.len() - 1) =~= a);
        assert(is_sep_at(s, s.len() - 1));
    } else {
        let b0 = b.drop_last();
        lemma_split_concat(a, b0);
        lemma_split_len(b0);
        assert(s.drop_last() =~= a + seq![SEP] + b0);
        assert(s.take(s.len() - 1) =~= a + seq![SEP] + b0);
        assert(b.take(b.len() - 1) =~= b0);
        lemma_escaping_after_sep(a, b0);
        assert(is_sep_at(s, s.len() - 1) == is_sep_at(b, b.len() - 1));
    }
}

/// A piece without separators splits into itself.
pub proof fn lemma_split_sep_free(c: Seq<char>)
    requires
        sep_free(c),
    ensures
        split_seps(c) =~= seq![c],
    decreases c.len(),
{
    if c.len() > 0 {
        let c0 = c.drop_last();
        assert(sep_free(c0)) by {
            assert forall|i: int| 0 <= i < c0.len() implies !#[trigger] is_sep_at(c0, i) by {
                lemma_sep_prefix(c, c.len() - 1, i);
                assert(c.take(c.len() - 1) =~= c0);
                assert(!is_sep_at(c, i));
            }
        }
        lemma_split_sep_free(c0);
        assert(!is_sep_at(c, c.len() - 1));
        let prev = split_seps(c0);
        assert(prev.last() == c0);
        assert(c0.push(c.last()) =~= c);
        assert(split_seps(c) == prev.update(0, c0.push(c.last())));
    } else {
        assert(c =~= Seq::<char>::empty());
    }
}

/// The last joined piece decides whether the join escapes what follows.
pub proof fn lemma_join_escaping(cs: Seq<Seq<char>>)
    requires
        cs.len() >= 1,
    ensures
        escaping(join(cs)) == escaping(cs.last()),
{
    if cs.len() >= 2 {
        lemma_escaping_after_sep(join(cs.drop_last()), cs.last());
    }
}

/// Joining pieces and splitting them again gives the pieces back.
pub proof fn lemma_split_join(cs: Seq<Seq<char>>)
    requires
        cs.len() >= 1,
        joinable(cs),
    ensures
        split_seps(join(cs)) =~= cs,
    decreases cs.len(),
{
    if cs.len() == 1 {
        lemma_split_sep_free(cs[0]);
    } else {
        let c0 = cs.drop_last();
        assert(joinable(c0)) by {
            assert forall|k: int| 0 <= k < c0.len() implies sep_free(#[trigger] c0[k]) by {
                assert(c0[k] == cs[k]);
            }
            assert forall|k: int| 0 <= k < c0.len() - 1 implies !escaping(#[trigger] c0[k]) by {
                assert(c0[k] == cs[k]);
            }
        }
        lemma_split_join(c0);
        lemma_join_escaping(c0);
        assert(!escaping(cs[cs.len() - 2]));
        lemma_split_concat(join(c0), cs.last());
        lemma_split_sep_free(cs.last());
    }
}

/// Dropping the empty pieces keeps the pieces joinable, and leaves none
/// empty.
pub proof fn lemma_nonempty(cs: Seq<Seq<char>>, strict: bool)
    requires
        joinable(cs),
        strict ==> forall|k: int| 0 <= k < cs.len() ==> !escaping(#[trigger] cs[k]),
    ensures
        joinable(nonempty(cs)),
        strict ==> forall|k: int|
            0 <= k < nonempty(cs).len() ==> !escaping(#[trigger] nonempty(cs)[k]),
        forall|k: int| 0 <= k < nonempty(cs).len() ==> (#[trigger] nonempty(cs)[k]).len() > 0,
    decreases cs.len(),
{
    if cs.len() > 0 {
        let c0 = cs.drop_last();
        assert forall|k: int| 0 <= k < c0.len() implies !escaping(#[trigger] c0[k]) by {
            assert(c0[k] == cs[k]);
        }
        assert forall|k: int| 0 <= k < c0.len() implies sep_free(#[trigger] c0[k]) by {
            assert(c0[k] == cs[k]);
        }
        lemma_nonempty(c0, true);
        let n0 = nonempty(c0);
        if cs.last().len() > 0 {
            let n = n0.push(cs.last());
            assert(nonempty(cs) == n);
            assert forall|k: int| 0 <= k < n.len() implies sep_free(#[trigger] n[k]) by {
                if k < n0.len() {
                    assert(n[k] == n0[k]);
                }
            }
            assert forall|k: int| 0 <= k < n.len() - 1 implies !escaping(#[trigger] n[k]) by {
                assert(n[k] == n0[k]);
            }
        }
    }
}

/// A piece that is joinable and not empty does not begin with a
/// separator, nor does a join that begins with it.
pub proof fn lemma_join_first(cs: Seq<Seq<char>>)
    requires
        cs.len() >= 1,
        cs[0].len() > 0,
    ensures
        join(cs).len() > 0,
        join(cs)[0] == cs[0][0],
    decreases cs.len(),
{
    if cs.len() > 1 {
        lemma_join_first(cs.drop_last());
    }
}

/// The canonical form of any string is canonical, or empty.
pub proof fn lemma_canonical_form_valid(s: Seq<char>)
    ensures
        valid_path(canonical_form(s)),
{
    if s.len() > 0 {
        lemma_split_len(s);
        lemma_split_joinable(s);
        let all = split_seps(s);
        let ps = parts_of(s);
        assert(joinable(ps)) by {
            let k0: int = if s == root_seq() { 2 } else if starts_with_sep(s) { 1 } else { 0 };
            assert(ps =~= all.subrange(k0, all.len() as int));
            assert forall|k: int| 0 <= k < ps.len() implies sep_free(#[trigger] ps[k]) by {
                assert(ps[k] == all[k + k0]);
            }
            assert forall|k: int| 0 <= k < ps.len() - 1 implies !escaping(#[trigger] ps[k]) by {
                assert(ps[k] == all[k + k0]);
            }
        }
        lemma_nonempty(ps, false);
        let f = nonempty(ps);
        if f.len() == 0 {
            assert(join(f) =~= Seq::<char>::empty());
            if starts_with_sep(s) {
                assert(root_seq() + join(f) =~= root_seq());
                lemma_split_len(root_seq());
                assert(parts_of(root_seq()).len() == 0) by {
                    let r = root_seq();
                    assert(r.drop_last() =~= Seq::<char>::empty());
                    assert(r.take(0) =~= Seq::<char>::empty());
                    assert(split_seps(r.drop_last()) =~= seq![Seq::<char>::empty()]);
                    assert(is_sep_at(r, 0));
                    assert(split_seps(r) =~= seq![Seq::<char>::empty(), Seq::<char>::empty()]);
                }
            }
        } else {
            lemma_split_join(f);
            lemma_join_first(f);
            assert(sep_free(f[0]));
            assert(!is_sep_at(f[0], 0));
            assert(f[0].take(0) =~= Seq::<char>::empty());
            let j = join(f);
            if starts_with_sep(s) {
                let c = root_seq() + j;
                assert(c =~= Seq::<char>::empty() + seq![SEP] + j);
                lemma_split_concat(Seq::<char>::empty(), j);
                assert(split_seps(Seq::<char>::empty()) =~= seq![Seq::<char>::empty()]);
                assert(c != root_seq()) by {
                    assert(c.len() > 1);
                }
                assert(parts_of(c) =~= f);
            } else {
                assert(j != root_seq());
                assert(!starts_with_sep(j));
                assert(parts_of(j) =~= f);
            }
        }
    }
}

/// Making a path of the string that a path holds changes nothing:
/// `Path::new(Path::new(s).as_str()) == Path::new(s)` for every `s`.
pub proof fn lemma_path_of_idempotent(s: Seq<char>)
    ensures
        path_of(path_of(s)) == path_of(s),
        valid_path(path_of(s)),
{
    lemma_canonical_form_valid(s);
    if !canonical(s) && !canonical(canonical_form(s)) {
        assert(canonical_form(s).len() == 0);
    }
}

// ---------------------------------------------------------------------
// Further models.

/// The position of the last unescaped separator among the first `n`
/// characters of `s`.
pub open spec fn last_sep_before(s: Seq<char>, n: int) -> Option<int>
    decreases n,
{
    if n <= 0 {
        None
    } else if is_sep_at(s, n - 1) {
        Some(n - 1)
    } else {
        last_sep_before(s, n - 1)
    }
}

/// The position of the last unescaped separator of `s`.
pub open spec fn last_sep(s: Seq<char>) -> Option<int> {
    last_sep_before(s, s.len() as int)
}

pub proof fn lemma_last_sep_before(s: Seq<char>, n: int)
    ensures
        last_sep_before(s, n) matches Some(i) ==> 0 <= i < n && is_sep_at(s, i) && forall|j: int|
            i < j < n ==> !is_sep_at(s, j),
        last_sep_before(s, n) is None ==> forall|j: int| 0 <= j < n ==> !is_sep_at(s, j),
    decreases n,
{
    if n > 0 {
        lemma_last_sep_before(s, n - 1);
    }
}

/// `s` without its last component; none for `/`, for a string without
/// separator, and where the only separator leads.
pub open spec fn dirname_of(s: Seq<char>) -> Option<Seq<char>> {
    match last_sep(s) {
        Some(i) => if i == 0 { None } else { Some(s.take(i)) },
        None => None,
    }
}

/// The last component of `s`; none for the empty string and for `/`.
pub open spec fn basename_of(s: Seq<char>) -> Option<Seq<char>> {
    match last_sep(s) {
        None => if s.len() > 0 { Some(s) } else { None },
        Some(i) => if s.len() <= 1 { None } else { Some(s.skip(i + 1)) },
    }
}

/// The prefixes of `s` that end before one of its unescaped separators,
/// among its first `n` characters; `/` first where `s` begins with one.
pub open spec fn prefixes_before(s: Seq<char>, n: int) -> Seq<Seq<char>>
    decreases n,
{
    if n <= 0 {
        if starts_with_sep(s) {
            seq![root_seq()]
        } else {
            Seq::empty()
        }
    } else {
        let prev = prefixes_before(s, n - 1);
        if n - 1 >= 1 && is_sep_at(s, n - 1) {
            prev.push(s.take(n - 1))
        } else {
            prev
        }
    }
}

/// Each directory on the way to `s`, from the root down to `s` itself.
pub open spec fn dirnames_of(s: Seq<char>) -> Seq<Seq<char>> {
    if s == root_seq() {
        seq![s]
    } else {
        prefixes_before(s, s.len() as int).push(s)
    }
}

/// `s` with `/` and `\` each preceded by a `\`.
pub open spec fn escaped(s: Seq<char>) -> Seq<char>
    decreases s.len(),
{
    if s.len() == 0 {
        s
    } else {
        let c = s.last();
        if c == SEP || c == ESC {
            escaped(s.drop_last()) + seq![ESC, c]
        } else {
            escaped(s.drop_last()).push(c)
        }
    }
}

/// `s` with each `\` that escapes a `/` or a `\` removed.
pub open spec fn unescaped(s: Seq<char>) -> Seq<char>
    decreases s.len(),
{
    if s.len() == 0 {
        s
    } else {
        let c = s.last();
        let prev = unescaped(s.drop_last());
        if escaping(s.drop_last()) && (c == SEP || c == ESC) {
            prev.drop_last().push(c)
        } else {
            prev.push(c)
        }
    }
}

/// What appending `part` to the path `p` gives.
pub open spec fn appended(p: Seq<char>, part: Seq<char>) -> Seq<char> {
    if part.len() == 0 {
        p
    } else {
        path_of(p + seq![SEP] + part)
    }
}

/// An escaped string never escapes what follows it.
proof fn lemma_escaped_not_escaping(s: Seq<char>)
    ensures
        !escaping(escaped(s)),
    decreases s.len(),
{
    if s.len() > 0 {
        let s0 = s.drop_last();
        let c = s.last();
        lemma_escaped_not_escaping(s0);
        let e0 = escaped(s0);
        if c == SEP || c == ESC {
            let e = e0 + seq![ESC, c];
            assert(escaped(s) == e);
            assert(e.drop_last() =~= e0.push(ESC));
            assert(e0.push(ESC).drop_last() =~= e0);
            assert(escaping(e0.push(ESC)));
            assert(e.last() == c);
        } else {
            assert(e0.push(c).drop_last() =~= e0);
        }
    }
}

/// Unescaping an escaped string gives the string back:
/// `Path::unescape(&Path::escape(s)) == s` for every `s`.
pub proof fn lemma_unescape_escape(s: Seq<char>)
    ensures
        unescaped(escaped(s)) == s,
    decreases s.len(),
{
    if s.len() > 0 {
        let s0 = s.drop_last();
        let c = s.last();
        lemma_unescape_escape(s0);
        lemma_escaped_not_escaping(s0);
        let e0 = escaped(s0);
        if c == SEP || c == ESC {
            let e1 = e0.push(ESC);
            let e = e0 + seq![ESC, c];
            assert(e.drop_last() =~= e1);
            assert(e1.drop_last() =~= e0);
            assert(unescaped(e1) == s0.push(ESC));
            assert(s0.push(ESC).drop_last() =~= s0);
            assert(s0.push(c) =~= s);
        } else {
            assert(e0.push(c).drop_last() =~= e0);
            assert(s0.push(c) =~= s);
        }
    }
}

/// Where, in bytes, the character at position `i` of `s` begins.
pub open spec fn byte_offset(s: Seq<char>, i: int) -> int {
    encode_utf8(s.take(i)).len() as int
}

/// The length of `s` in bytes.
fn byte_len(s: &str) -> (r: usize)
    ensures
        r == encode_utf8(s@).len(),
{
    s.as_bytes().len()
}

/// The views of a sequence of string slices.
pub open spec fn views(v: Seq<&str>) -> Seq<Seq<char>> {
    v.map_values(|x: &str| x@)
}

// ---------------------------------------------------------------------
// Executable code.

/// Relies on `String::push`: the character is added at the end.
#[verifier::external_body]
fn push_char(s: &mut String, c: char)
    ensures
        final(s)@ == old(s)@.push(c),
{
    s.push(c)
}

/// The characters of `s`, in order.
pub(crate) fn chars_of(s: &str) -> (r: Vec<char>)
    ensures
        r@ == s@,
{
    let mut r: Vec<char> = Vec::new();
    for c in it: s.chars()
        invariant
            r@ == it.seq().take(it.index() as int),
    {
        r.push(c);
    }
    r
}

proof fn lemma_views_push(v: Seq<&str>, x: &str)
    ensures
        views(v.push(x)) =~= views(v).push(x@),
{
}

proof fn lemma_escaping_step(s: Seq<char>, i: int)
    requires
        0 <= i < s.len(),
    ensures
        s.take(i + 1).drop_last() =~= s.take(i),
        escaping(s.take(i + 1)) == (s[i] == ESC && !escaping(s.take(i))),
        is_sep_at(s, i) == is_sep_at(s.take(i + 1), i),
{
    assert(s.take(i + 1).drop_last() =~= s.take(i));
    lemma_sep_prefix(s, i + 1, i);
}

/// `s` cut at each of its unescaped separators.
fn split_escaped(s: &str) -> (r: Vec<&str>)
    ensures
        views(r@) == split_seps(s@),
{
    let cs = chars_of(s);
    let n = cs.len();
    let mut r: Vec<&str> = Vec::new();
    let mut start: usize = 0;
    let mut esc = false;
    let mut i: usize = 0;
    assert(s@.take(0) =~= Seq::<char>::empty());
    assert(s@.subrange(0, 0) =~= Seq::<char>::empty());
    while i < n
        invariant
            cs@ == s@,
            n == cs.len(),
            start <= i <= n,
            esc == escaping(s@.take(i as int)),
            views(r@).push(s@.subrange(start as int, i as int)) =~= split_seps(s@.take(i as int)),
        decreases n - i,
    {
        let c = cs[i];
        proof {
            lemma_escaping_step(s@, i as int);
        }
        let ghost t = s@.take(i + 1);
        assert(t.last() == c);
        if c == SEP && !esc {
            let piece = s.substring_char(start, i);
            proof {
                lemma_views_push(r@, piece);
            }
            r.push(piece);
            start = i + 1;
            esc = false;
            assert(s@.subrange(start as int, start as int) =~= Seq::<char>::empty());
        } else {
            assert(s@.subrange(start as int, i + 1) =~= s@.subrange(start as int, i as int).push(c));
            esc = c == ESC && !esc;
        }
        i += 1;
    }
    assert(s@.take(n as int) =~= s@);
    let last = s.substring_char(start, n);
    proof {
        lemma_views_push(r@, last);
    }
    r.push(last);
    r
}

/// Whether `s` holds exactly one character, the separator.
fn is_root(cs: &Vec<char>) -> (r: bool)
    ensures
        r == (cs@ == root_seq()),
{
    if cs.len() == 1 && cs[0] == SEP {
        assert(cs@ =~= root_seq());
        true
    } else {
        false
    }
}

/// Whether no component of `s` is empty.
fn is_canonical(s: &str) -> (r: bool)
    ensures
        r == canonical(s@),
{
    let ps = Path::parts(s);
    let mut k: usize = 0;
    while k < ps.len()
        invariant
            views(ps@) == parts_of(s@),
            k <= ps.len(),
            forall|j: int| 0 <= j < k ==> (#[trigger] parts_of(s@)[j]).len() > 0,
        decreases ps.len() - k,
    {
        assert(views(ps@)[k as int] == ps@[k as int]@);
        if ps[k].is_empty() {
            return false;
        }
        k += 1;
    }
    true
}

/// The canonical form of `s`.
fn canonize(s: &str) -> (r: String)
    ensures
        r@ == canonical_form(s@),
{
    let mut res = String::new();
    let cs = chars_of(s);
    if cs.len() > 0 {
        if cs[0] == SEP {
            push_char(&mut res, SEP);
        }
        let ghost lead = res@;
        let ps = Path::parts(s);
        let mut first = true;
        let mut k: usize = 0;
        assert(ps@.take(0) =~= Seq::<&str>::empty());
        while k < ps.len()
            invariant
                views(ps@) == parts_of(s@),
                k <= ps.len(),
                lead == (if starts_with_sep(s@) { root_seq() } else { Seq::<char>::empty() }),
                res@ == lead + join(nonempty(views(ps@).take(k as int))),
                first == (nonempty(views(ps@).take(k as int)).len() == 0),
            decreases ps.len() - k,
        {
            let p = ps[k];
            let ghost before = nonempty(views(ps@).take(k as int));
            assert(views(ps@).take(k + 1).drop_last() =~= views(ps@).take(k as int));
            assert(views(ps@)[k as int] == p@);
            if !p.is_empty() {
                if first {
                    first = false;
                    assert(nonempty(views(ps@).take(k + 1)) == seq![p@]);
                    assert(join(seq![p@]) == p@);
                } else {
                    push_char(&mut res, SEP);
                    assert(before.push(p@).drop_last() =~= before);
                }
                res.append(p);
            }
            k += 1;
        }
        assert(views(ps@).take(ps.len() as int) =~= views(ps@));
    }
    res
}

/// A path in the namespace: a canonical string whose components are
/// separated by `/`. A `/` inside a component is escaped with `\`, and
/// so is a `\`; any other character may be used.
#[derive(Debug, Hash, Eq, PartialOrd, Ord)]
pub struct Path {
    s: String,
}

impl View for Path {
    type V = Seq<char>;

    closed spec fn view(&self) -> Seq<char> {
        self.s@
    }
}

impl Path {
    #[verifier::type_invariant]
    closed spec fn inv(&self) -> bool {
        valid_path(self.s@)
    }

    /// The path made from `s`: `s` itself where it is canonical, else `s`
    /// with its empty components removed.
    pub fn new(s: &str) -> (r: Path)
        ensures
            r@ == path_of(s@),
    {
        proof {
            lemma_path_of_idempotent(s@);
        }
        if is_canonical(s) {
            Path { s: String::from_str(s) }
        } else {
            Path { s: canonize(s) }
        }
    }

    /// The string that the path holds.
    pub fn as_str(&self) -> (r: &str)
        ensures
            r@ == self@,
            valid_path(r@),
    {
        proof {
            use_type_invariant(self);
        }
        self.s.as_str()
    }

    /// The path `/`.
    pub fn root() -> (r: Path)
        ensures
            r@ == root_seq(),
    {
        let mut s = String::new();
        push_char(&mut s, SEP);
        assert(s@ =~= root_seq());
        proof {
            lemma_canonical_form_valid(s@);
            lemma_root_canonical();
        }
        Path { s }
    }

    /// Whether `s` begins with the separator.
    pub fn is_absolute(s: &str) -> (r: bool)
        ensures
            r == starts_with_sep(s@),
    {
        let cs = chars_of(s);
        cs.len() > 0 && cs[0] == SEP
    }

    /// `s` with each `/` and `\` escaped, so that it stands as one
    /// component when appended to a path.
    pub fn escape(s: &str) -> (r: String)
        ensures
            r@ == escaped(s@),
    {
        let cs = chars_of(s);
        let mut out = String::new();
        let mut i: usize = 0;
        assert(s@.take(0) =~= Seq::<char>::empty());
        while i < cs.len()
            invariant
                cs@ == s@,
                i <= cs.len(),
                out@ == escaped(s@.take(i as int)),
            decreases cs.len() - i,
        {
            let c = cs[i];
            assert(s@.take(i + 1).drop_last() =~= s@.take(i as int));
            if c == SEP || c == ESC {
                push_char(&mut out, ESC);
                push_char(&mut out, c);
                assert(escaped(s@.take(i as int)).push(ESC).push(c) =~= escaped(s@.take(i as int))
                    + seq![ESC, c]);
            } else {
                push_char(&mut out, c);
            }
            i += 1;
        }
        assert(s@.take(cs.len() as int) =~= s@);
        out
    }

    /// `s` with the escapes of `/` and `\` removed.
    pub fn unescape(s: &str) -> (r: String)
        ensures
            r@ == unescaped(s@),
    {
        let cs = chars_of(s);
        let mut out = String::new();
        let mut esc = false;
        let mut i: usize = 0;
        assert(s@.take(0) =~= Seq::<char>::empty());
        while i < cs.len()
            invariant
                cs@ == s@,
                i <= cs.len(),
                esc == escaping(s@.take(i as int)),
                esc ==> unescaped(s@.take(i as int)).len() > 0 && unescaped(
                    s@.take(i as int),
                ).last() == ESC,
                out@ == (if esc {
                    unescaped(s@.take(i as int)).drop_last()
                } else {
                    unescaped(s@.take(i as int))
                }),
            decreases cs.len() - i,
        {
            let c = cs[i];
            proof {
                lemma_escaping_step(s@, i as int);
            }
            let ghost u = unescaped(s@.take(i as int));
            if esc {
                if c == SEP || c == ESC {
                    push_char(&mut out, c);
                    esc = false;
                } else {
                    push_char(&mut out, ESC);
                    assert(u.drop_last().push(ESC) =~= u);
                    if c == ESC {
                        esc = true;
                    } else {
                        push_char(&mut out, c);
                        esc = false;
                    }
                }
            } else if c == ESC {
                esc = true;
                assert(u.push(c).drop_last() =~= u);
            } else {
                push_char(&mut out, c);
            }
            i += 1;
        }
        if esc {
            push_char(&mut out, ESC);
            assert(unescaped(s@.take(i as int)).drop_last().push(ESC) =~= unescaped(
                s@.take(i as int),
            ));
        }
        assert(s@.take(cs.len() as int) =~= s@);
        out
    }

    /// This path with `part` appended after a separator, made canonical;
    /// this path itself where `part` is empty.
    pub fn append(&self, part: &str) -> (r: Path)
        ensures
            r@ == appended(self@, part@),
    {
        if part.is_empty() {
            self.clone()
        } else {
            let mut res = String::new();
            res.append(self.as_str());
            push_char(&mut res, SEP);
            res.append(part);
            assert(res@ =~= self@ + seq![SEP] + part@);
            Path::new(res.as_str())
        }
    }

    /// The components of `s`. A `/` preceded by an odd number of `\` does
    /// not separate.
    pub fn parts(s: &str) -> (r: Vec<&str>)
        ensures
            views(r@) == parts_of(s@),
    {
        let all = split_escaped(s);
        let cs = chars_of(s);
        proof {
            lemma_split_len(s@);
        }
        let skip: usize = if is_root(&cs) {
            2
        } else if cs.len() > 0 && cs[0] == SEP {
            1
        } else {
            0
        };
        let mut r: Vec<&str> = Vec::new();
        let mut k: usize = skip;
        while k < all.len()
            invariant
                views(all@) == split_seps(s@),
                skip <= k <= all.len(),
                views(r@) =~= split_seps(s@).subrange(skip as int, k as int),
            decreases all.len() - k,
        {
            proof {
                lemma_views_push(r@, all@[k as int]);
            }
            r.push(all[k]);
            k += 1;
        }
        r
    }

    /// Each directory on the way to `s`, from `/` down to `s` itself.
    pub fn dirnames(s: &str) -> (r: Vec<&str>)
        ensures
            views(r@) == dirnames_of(s@),
    {
        let cs = chars_of(s);
        let n = cs.len();
        let mut r: Vec<&str> = Vec::new();
        if is_root(&cs) {
            r.push(s);
            return r;
        }
        if n > 0 && cs[0] == SEP {
            let top = s.substring_char(0, 1);
            assert(top@ =~= root_seq());
            r.push(top);
        }
        let mut esc = false;
        let mut i: usize = 0;
        assert(s@.take(0) =~= Seq::<char>::empty());
        assert(views(r@) =~= prefixes_before(s@, 0));
        while i < n
            invariant
                cs@ == s@,
                n == cs.len(),
                i <= n,
                esc == escaping(s@.take(i as int)),
                views(r@) =~= prefixes_before(s@, i as int),
            decreases n - i,
        {
            let c = cs[i];
            proof {
                lemma_escaping_step(s@, i as int);
            }
            if c == SEP && !esc {
                if i >= 1 {
                    let d = s.substring_char(0, i);
                    proof {
                        lemma_views_push(r@, d);
                    }
                    r.push(d);
                }
                esc = false;
            } else {
                esc = c == ESC && !esc;
            }
            i += 1;
        }
        proof {
            lemma_views_push(r@, s);
        }
        r.push(s);
        r
    }

    /// The number of components of `s`.
    pub fn levels(s: &str) -> (r: usize)
        ensures
            r == parts_of(s@).len(),
    {
        Path::parts(s).len()
    }

    /// `s` without its last component, or none where `s` is empty, `/`,
    /// or has a single component.
    pub fn dirname(s: &str) -> (r: Option<&str>)
        ensures
            r matches Some(d) ==> dirname_of(s@) == Some(d@),
            r is None ==> dirname_of(s@) is None,
    {
        match Path::last_sep_index(s) {
            None => None,
            Some(i) => if i == 0 {
                None
            } else {
                Some(s.substring_char(0, i))
            },
        }
    }

    /// `s` without its last component, with the separator that precedes
    /// that component kept.
    pub fn dirname_with_sep(s: &str) -> (r: Option<&str>)
        ensures
            r matches Some(d) ==> dirname_of(s@) is Some && d@ == dirname_of(s@)->0.push(SEP),
            r is None ==> dirname_of(s@) is None,
    {
        match Path::last_sep_index(s) {
            None => None,
            Some(i) => if i == 0 {
                None
            } else {
                let d = s.substring_char(0, i + 1);
                assert(d@ =~= s@.take(i as int).push(SEP));
                Some(d)
            },
        }
    }

    /// The last component of `s`, or none where `s` is empty or `/`.
    pub fn basename(s: &str) -> (r: Option<&str>)
        ensures
            r matches Some(b) ==> basename_of(s@) == Some(b@),
            r is None ==> basename_of(s@) is None,
    {
        let n = s.unicode_len();
        match Path::last_sep_index(s) {
            None => if n > 0 {
                Some(s)
            } else {
                None
            },
            Some(i) => if n <= 1 {
                None
            } else {
                let b = s.substring_char(i + 1, n);
                assert(b@ =~= s@.skip(i + 1));
                Some(b)
            },
        }
    }

    /// The byte offset of the last unescaped separator of `s`.
    pub fn rfind_sep(s: &str) -> (r: Option<usize>)
        ensures
            r matches Some(b) ==> (last_sep(s@) matches Some(i) && b == byte_offset(s@, i)),
            r is None ==> last_sep(s@) is None,
    {
        match Path::last_sep_index(s) {
            None => None,
            Some(i) => Some(byte_len(s.substring_char(0, i))),
        }
    }

    /// The byte offset of the first unescaped separator of `s`.
    pub fn find_sep(s: &str) -> (r: Option<usize>)
        ensures
            r matches Some(b) ==> exists|i: int|
                is_sep_at(s@, i) && (forall|j: int| 0 <= j < i ==> !is_sep_at(s@, j)) && b
                    == byte_offset(s@, i),
            r is None ==> forall|j: int| 0 <= j < s@.len() ==> !is_sep_at(s@, j),
    {
        match Path::first_sep_index(s) {
            None => None,
            Some(i) => Some(byte_len(s.substring_char(0, i))),
        }
    }

    /// The position, in characters, of the last unescaped separator of
    /// `s`.
    fn last_sep_index(s: &str) -> (r: Option<usize>)
        ensures
            r matches Some(i) ==> last_sep(s@) == Some(i as int) && is_sep_at(s@, i as int) && i
                < usize::MAX,
            r is None ==> last_sep(s@) is None,
    {
        proof {
            lemma_last_sep_before(s@, s@.len() as int);
        }
        let cs = chars_of(s);
        let mut found: Option<usize> = None;
        let mut esc = false;
        let mut i: usize = 0;
        assert(s@.take(0) =~= Seq::<char>::empty());
        while i < cs.len()
            invariant
                cs@ == s@,
                i <= cs.len(),
                esc == escaping(s@.take(i as int)),
                found matches Some(j) ==> last_sep_before(s@, i as int) == Some(j as int),
                found is None ==> last_sep_before(s@, i as int) is None,
            decreases cs.len() - i,
        {
            let c = cs[i];
            proof {
                lemma_escaping_step(s@, i as int);
            }
            if c == SEP && !esc {
                found = Some(i);
                esc = false;
            } else {
                esc = c == ESC && !esc;
            }
            i += 1;
        }
        found
    }

    /// The position, in characters, of the first unescaped separator of
    /// `s`.
    fn first_sep_index(s: &str) -> (r: Option<usize>)
        ensures
            r matches Some(i) ==> is_sep_at(s@, i as int) && forall|j: int|
                0 <= j < i ==> !is_sep_at(s@, j),
            r is None ==> forall|j: int| 0 <= j < s@.len() ==> !is_sep_at(s@, j),
    {
        let cs = chars_of(s);
        let mut esc = false;
        let mut i: usize = 0;
        assert(s@.take(0) =~= Seq::<char>::empty());
        while i < cs.len()
            invariant
                cs@ == s@,
                i <= cs.len(),
                esc == escaping(s@.take(i as int)),
                forall|j: int| 0 <= j < i ==> !is_sep_at(s@, j),
            decreases cs.len() - i,
        {
            let c = cs[i];
            proof {
                lemma_escaping_step(s@, i as int);
            }
            if c == SEP && !esc {
                return Some(i);
            }
            esc = c == ESC && !esc;
            i += 1;
        }
        None
    }
}

impl Clone for Path {
    fn clone(&self) -> (r: Self)
        ensures
            r == *self,
    {
        proof {
            use_type_invariant(self);
        }
        Path { s: self.s.clone() }
    }
}

impl PartialEq for Path {
    fn eq(&self, o: &Path) -> (r: bool)
        ensures
            r == (self@ == o@),
    {
        self.s == o.s
    }
}

impl vstd::std_specs::cmp::PartialEqSpecImpl for Path {
    open spec fn obeys_eq_spec() -> bool {
        true
    }

    open spec fn eq_spec(&self, o: &Path) -> bool {
        self@ == o@
    }
}

/// For a path `p` that has a directory part, appending the last component
/// of `p` to the path made of that directory part gives `p` back:
/// `Path::new(dirname(p)).append(basename(p)) == p`.
pub proof fn lemma_dirname_basename(p: Seq<char>)
    requires
        valid_path(p),
        p != root_seq(),
        p.len() > 0,
        dirname_of(p) is Some,
    ensures
        basename_of(p) is Some,
        appended(path_of(dirname_of(p)->0), basename_of(p)->0) == p,
{
    lemma_last_sep_before(p, p.len() as int);
    let i = last_sep(p)->0;
    let d = p.take(i);
    let b = p.skip(i + 1);
    assert(p =~= d + seq![SEP] + b);
    assert(p.take(i) == d);
    lemma_split_concat(d, b);
    lemma_split_len(d);
    lemma_split_len(b);
    lemma_split_len(p);
    let all = split_seps(p);
    assert(all =~= split_seps(d) + split_seps(b));
    let k: int = if starts_with_sep(p) { 1 } else { 0 };
    assert(parts_of(p) =~= all.skip(k));
    // the last component is not empty
    if b.len() == 0 {
        assert(p.drop_last() =~= d);
        assert(split_seps(b) =~= seq![Seq::<char>::empty()]);
        assert(all.last() =~= Seq::<char>::empty());
        assert(parts_of(p)[parts_of(p).len() - 1] == all.last());
    }
    assert(b.len() > 0);
    assert(basename_of(p) == Some(b));
    // the directory part is canonical
    if d == root_seq() {
        lemma_root_canonical();
        assert(parts_of(p)[0] == all[1]);
    }
    assert(d != root_seq());
    assert(starts_with_sep(d) == starts_with_sep(p));
    assert(parts_of(d) =~= split_seps(d).skip(k));
    assert forall|j: int| 0 <= j < parts_of(d).len() implies (#[trigger] parts_of(d)[j]).len()
        > 0 by {
        assert(parts_of(d)[j] == parts_of(p)[j]);
    }
    assert(canonical(d));
    assert(path_of(d) == d);
}

/// For an absolute path `p` of one component, which has no directory
/// part, appending that component to `/` gives `p` back:
/// `Path::root().append(basename(p)) == p`.
pub proof fn lemma_root_basename(p: Seq<char>)
    requires
        valid_path(p),
        p != root_seq(),
        starts_with_sep(p),
        dirname_of(p) is None,
    ensures
        basename_of(p) is Some,
        appended(root_seq(), basename_of(p)->0) == p,
{
    let e = Seq::<char>::empty();
    lemma_last_sep_before(p, p.len() as int);
    assert(p.take(0) =~= e);
    assert(is_sep_at(p, 0));
    assert(last_sep(p) == Some(0int));
    let b = p.skip(1);
    // the one component has no separator of its own
    assert(sep_free(b)) by {
        assert forall|k: int| 0 <= k < b.len() implies !#[trigger] is_sep_at(b, k) by {
            assert(p.take(k + 1) =~= e + seq![SEP] + b.take(k));
            lemma_escaping_after_sep(e, b.take(k));
            assert(!is_sep_at(p, k + 1));
            assert(p[k + 1] == b[k]);
        }
    }
    if b.len() == 0 {
        assert(p =~= root_seq());
    }
    assert(basename_of(p) == Some(b));
    // `//b` splits into two empty pieces and `b`
    let rb = seq![SEP] + b;
    let q = root_seq() + seq![SEP] + b;
    assert(rb =~= e + seq![SEP] + b);
    assert(q =~= e + seq![SEP] + rb);
    assert(split_seps(e) =~= seq![e]);
    lemma_split_sep_free(b);
    lemma_split_concat(e, b);
    lemma_split_concat(e, rb);
    assert(split_seps(q) =~= seq![e, e, b]);
    assert(q != root_seq()) by {
        assert(q.len() >= 3);
    }
    assert(parts_of(q) =~= seq![e, b]);
    assert(!canonical(q)) by {
        assert(parts_of(q)[0].len() == 0);
    }
    assert(seq![e, b].drop_last() =~= seq![e]);
    assert(seq![e].drop_last() =~= Seq::<Seq<char>>::empty());
    assert(seq![e].last() == e);
    assert(nonempty(Seq::<Seq<char>>::empty()) == Seq::<Seq<char>>::empty());
    assert(nonempty(seq![e]) =~= Seq::<Seq<char>>::empty());
    assert(seq![e, b].last() == b);
    assert(nonempty(seq![e, b]) == nonempty(seq![e]).push(b));
    assert(nonempty(parts_of(q)) =~= seq![b]);
    assert(join(seq![b]) == b);
    assert(root_seq() + b =~= p);
}

/// `/` is canonical.
pub proof fn lemma_root_canonical()
    ensures
        canonical(root_seq()),
        parts_of(root_seq()).len() == 0,
        split_seps(root_seq()) =~= seq![Seq::<char>::empty(), Seq::<char>::empty()],
{
    let r = root_seq();
    assert(r.drop_last() =~= Seq::<char>::empty());
    assert(r.take(0) =~= Seq::<char>::empty());
    assert(split_seps(r.drop_last()) =~= seq![Seq::<char>::empty()]);
    assert(is_sep_at(r, 0));
    assert(split_seps(r) =~= seq![Seq::<char>::empty(), Seq::<char>::empty()]);
}

} // verus!
