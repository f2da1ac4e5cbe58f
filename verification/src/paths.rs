//! Dotted-path utilities: lexicographic ordering on character sequences,
//! splitting a name on `.`, and joining path segments.

use vstd::prelude::*;
use vstd::string::StrSliceExecFns;

verus! {

/// Strict lexicographic order on character sequences, by code point.
/// For UTF-8 encoded text this agrees with byte-wise ordering.
pub open spec fn lex_lt(a: Seq<char>, b: Seq<char>) -> bool
    decreases a.len(),
{
    if a.len() == 0 {
        b.len() > 0
    } else if b.len() == 0 {
        false
    } else if a[0] != b[0] {
        (a[0] as u32) < (b[0] as u32)
    } else {
        lex_lt(a.subrange(1, a.len() as int), b.subrange(1, b.len() as int))
    }
}

pub proof fn lemma_lex_irrefl(a: Seq<char>)
    ensures
        !lex_lt(a, a),
    decreases a.len(),
{
    if a.len() > 0 {
        lemma_lex_irrefl(a.subrange(1, a.len() as int));
    }
}

pub proof fn lemma_lex_trans(a: Seq<char>, b: Seq<char>, c: Seq<char>)
    requires
        lex_lt(a, b),
        lex_lt(b, c),
    ensures
        lex_lt(a, c),
    decreases a.len(),
{
    if a.len() > 0 && b.len() > 0 && c.len() > 0 && a[0] == b[0] && b[0] == c[0] {
        lemma_lex_trans(
            a.subrange(1, a.len() as int),
            b.subrange(1, b.len() as int),
            c.subrange(1, c.len() as int),
        );
    }
}

/// A sequence equals its head prepended to its tail.
proof fn lemma_eq_from_head_tail(a: Seq<char>, b: Seq<char>)
    requires
        a.len() > 0,
        b.len() > 0,
        a[0] == b[0],
        a.subrange(1, a.len() as int) == b.subrange(1, b.len() as int),
    ensures
        a == b,
{
    assert(a.subrange(1, a.len() as int).len() == a.len() - 1);
    assert(b.subrange(1, b.len() as int).len() == b.len() - 1);
    assert(a.len() == b.len());
    assert forall|i: int| 0 <= i < a.len() implies a[i] == b[i] by {
        if i >= 1 {
            assert(a.subrange(1, a.len() as int)[i - 1] == a[i]);
            assert(b.subrange(1, b.len() as int)[i - 1] == b[i]);
        }
    }
    assert(a =~= b);
}

/// Any two sequences are equal or ordered one way or the other.
pub proof fn lemma_lex_connex(a: Seq<char>, b: Seq<char>)
    ensures
        a == b || lex_lt(a, b) || lex_lt(b, a),
    decreases a.len(),
{
    if a.len() == 0 && b.len() == 0 {
        assert(a =~= b);
    } else if a.len() == 0 || b.len() == 0 {
    } else if a[0] != b[0] {
        vstd::utf8::char_u32_cast(a[0], a[0] as u32);
        vstd::utf8::char_u32_cast(b[0], b[0] as u32);
        assert((a[0] as u32) != (b[0] as u32));
    } else {
        let a1 = a.subrange(1, a.len() as int);
        let b1 = b.subrange(1, b.len() as int);
        lemma_lex_connex(a1, b1);
        if a1 == b1 {
            lemma_eq_from_head_tail(a, b);
        }
    }
}

/// Ordered sequences differ.
pub proof fn lemma_lex_neq(a: Seq<char>, b: Seq<char>)
    requires
        lex_lt(a, b),
    ensures
        a != b,
{
    if a == b {
        lemma_lex_irrefl(a);
    }
}

/// Decides `lex_lt` on two string slices.
pub fn str_lt(a: &str, b: &str) -> (r: bool)
    ensures
        r == lex_lt(a@, b@),
    decreases a@.len(),
{
    let alen = a.unicode_len();
    let blen = b.unicode_len();
    if alen == 0 {
        blen > 0
    } else if blen == 0 {
        false
    } else {
        let ca = a.get_char(0);
        let cb = b.get_char(0);
        if ca != cb {
            (ca as u32) < (cb as u32)
        } else {
            str_lt(a.substring_char(1, alen), b.substring_char(1, blen))
        }
    }
}

/// Decides view equality of two string slices.
pub fn str_eq(a: &str, b: &str) -> (r: bool)
    ensures
        r == (a@ == b@),
    decreases a@.len(),
{
    let alen = a.unicode_len();
    let blen = b.unicode_len();
    if alen != blen {
        proof {
            assert(a@ != b@);
        }
        false
    } else if alen == 0 {
        proof {
            assert(a@ =~= b@);
        }
        true
    } else {
        let ca = a.get_char(0);
        let cb = b.get_char(0);
        if ca != cb {
            proof {
                assert(a@[0] != b@[0]);
            }
            false
        } else {
            let r = str_eq(a.substring_char(1, alen), b.substring_char(1, blen));
            proof {
                if a@.subrange(1, a@.len() as int) == b@.subrange(1, b@.len() as int) {
                    lemma_eq_from_head_tail(a@, b@);
                } else {
                    assert(a@ != b@);
                }
            }
            r
        }
    }
}

/// The dotted concatenation of a parent path and one more segment.
pub open spec fn dotted(p: Seq<char>, n: Seq<char>) -> Seq<char> {
    if p.len() == 0 {
        n
    } else {
        p + seq!['.'] + n
    }
}

/// Index of the first `.` in `s`, or -1 if there is none.
pub open spec fn first_dot(s: Seq<char>) -> int
    decreases s.len(),
{
    if s.len() == 0 {
        -1
    } else if s[0] == '.' {
        0
    } else {
        let r = first_dot(s.subrange(1, s.len() as int));
        if r < 0 {
            -1
        } else {
            r + 1
        }
    }
}

pub proof fn lemma_first_dot(s: Seq<char>)
    ensures
        first_dot(s) == -1 ==> forall|i: int| 0 <= i < s.len() ==> s[i] != '.',
        first_dot(s) != -1 ==> 0 <= first_dot(s) < s.len() && s[first_dot(s)] == '.',
    decreases s.len(),
{
    if s.len() > 0 && s[0] != '.' {
        let s1 = s.subrange(1, s.len() as int);
        lemma_first_dot(s1);
        if first_dot(s1) == -1 {
            assert forall|i: int| 0 <= i < s.len() implies s[i] != '.' by {
                if i >= 1 {
                    assert(s1[i - 1] == s[i]);
                }
            }
        } else {
            assert(s1[first_dot(s1)] == s[first_dot(s1) + 1]);
        }
    }
}

/// A prefix free of dots pins `first_dot` down: the first dot is at `i` if
/// `s[i]` is a dot, and there is none at all if the scan ran off the end.
pub proof fn lemma_first_dot_scan(s: Seq<char>, i: int)
    requires
        0 <= i <= s.len(),
        forall|k: int| 0 <= k < i ==> s[k] != '.',
    ensures
        i < s.len() && s[i] == '.' ==> first_dot(s) == i,
        i == s.len() ==> first_dot(s) == -1,
    decreases i,
{
    if i > 0 {
        let s1 = s.subrange(1, s.len() as int);
        assert forall|k: int| 0 <= k < i - 1 implies s1[k] != '.' by {
            assert(s1[k] == s[k + 1]);
        }
        lemma_first_dot_scan(s1, i - 1);
        if i < s.len() && s[i] == '.' {
            assert(s1[i - 1] == s[i]);
        }
    }
}

/// The segments of a non-empty dotted name, split on `.`.
pub open spec fn split_segments(s: Seq<char>) -> Seq<Seq<char>>
    decreases s.len(),
{
    let d = first_dot(s);
    if d < 0 || d >= s.len() {
        seq![s]
    } else {
        seq![s.subrange(0, d)] + split_segments(s.subrange(d + 1, s.len() as int))
    }
}

/// The path denoted by a dotted name: no segments at all for the empty name
/// (which addresses the root), otherwise the name split on `.`.
pub open spec fn split_path(s: Seq<char>) -> Seq<Seq<char>> {
    if s.len() == 0 {
        Seq::empty()
    } else {
        split_segments(s)
    }
}

/// Segments joined back with a `.` between each two.
pub open spec fn join_segments(segs: Seq<Seq<char>>) -> Seq<char>
    decreases segs.len(),
{
    if segs.len() == 0 {
        Seq::empty()
    } else if segs.len() == 1 {
        segs[0]
    } else {
        segs[0] + seq!['.'] + join_segments(segs.subrange(1, segs.len() as int))
    }
}

/// A split always yields at least one segment.
proof fn lemma_split_segments_nonempty(s: Seq<char>)
    ensures
        split_segments(s).len() >= 1,
{
    let d = first_dot(s);
    if d < 0 || d >= s.len() {
    } else {
    }
}

/// Joining the segments of a name gives the name back: splitting loses
/// nothing.
pub proof fn lemma_join_split(s: Seq<char>)
    ensures
        join_segments(split_path(s)) == s,
        split_path(s).len() == 0 <==> s.len() == 0,
    decreases s.len(),
{
    if s.len() == 0 {
        assert(join_segments(split_path(s)) =~= s);
    } else {
        let d = first_dot(s);
        lemma_first_dot(s);
        if d < 0 || d >= s.len() {
            assert(split_segments(s) == seq![s]);
            assert(join_segments(seq![s]) == s);
        } else {
            let head = s.subrange(0, d);
            let tail = s.subrange(d + 1, s.len() as int);
            let rest = split_segments(tail);
            assert(split_segments(s) == seq![head] + rest);
            lemma_split_segments_nonempty(tail);
            if tail.len() == 0 {
                assert(first_dot(tail) == -1);
                assert(rest =~= seq![tail]);
                assert(join_segments(rest) == tail);
            } else {
                lemma_join_split(tail);
                assert(join_segments(rest) == tail);
            }
            let segs = seq![head] + rest;
            assert(segs[0] == head);
            assert(segs.subrange(1, segs.len() as int) =~= rest);
            assert(join_segments(segs) == head + seq!['.'] + join_segments(rest));
            assert(head + seq!['.'] + tail =~= s);
        }
    }
}

/// Distinct dotted names split into distinct segment paths.
pub proof fn lemma_split_path_injective(a: Seq<char>, b: Seq<char>)
    requires
        a != b,
    ensures
        split_path(a) != split_path(b),
{
    lemma_join_split(a);
    lemma_join_split(b);
}

/// The views of a vector of owned segments.
pub open spec fn seg_views(v: Seq<String>) -> Seq<Seq<char>> {
    v.map_values(|t: String| t@)
}

/// Finds the first `.` in a string slice.
pub fn find_dot(s: &str) -> (r: Option<usize>)
    ensures
        match r {
            Some(i) => first_dot(s@) == i as int,
            None => first_dot(s@) == -1,
        },
{
    let len = s.unicode_len();
    let mut i: usize = 0;
    while i < len
        invariant
            0 <= i <= len,
            len as nat == s@.len(),
            forall|k: int| 0 <= k < i ==> s@[k] != '.',
        decreases len - i,
    {
        if s.get_char(i) == '.' {
            proof {
                lemma_first_dot_scan(s@, i as int);
            }
            return Some(i);
        }
        i += 1;
    }
    proof {
        lemma_first_dot_scan(s@, len as int);
    }
    None
}

fn split_nonempty(s: &str) -> (r: Vec<String>)
    ensures
        seg_views(r@) == split_segments(s@),
    decreases s@.len(),
{
    match find_dot(s) {
        None => {
            let mut v: Vec<String> = Vec::new();
            v.push(s.to_owned());
            proof {
                assert(seg_views(v@) =~= seq![s@]);
            }
            v
        },
        Some(d) => {
            proof {
                lemma_first_dot(s@);
            }
            let len = s.unicode_len();
            let head = s.substring_char(0, d);
            let tail = s.substring_char(d + 1, len);
            let mut rest = split_nonempty(tail);
            rest.insert(0, head.to_owned());
            proof {
                assert(seg_views(rest@) =~= seq![s@.subrange(0, d as int)] + split_segments(
                    s@.subrange(d + 1, s@.len() as int),
                ));
            }
            rest
        },
    }
}

/// Splits a dotted name into its segments; the empty name has none.
pub fn split_dotted(s: &str) -> (r: Vec<String>)
    ensures
        seg_views(r@) == split_path(s@),
{
    if s.unicode_len() == 0 {
        let v: Vec<String> = Vec::new();
        proof {
            assert(seg_views(v@) =~= split_path(s@));
        }
        v
    } else {
        split_nonempty(s)
    }
}

/// Joins a parent path and a segment with a `.` between them, except that an
/// empty parent contributes nothing.
pub fn join_dotted(path: &str, part: &str) -> (r: String)
    ensures
        r@ == dotted(path@, part@),
{
    proof {
        reveal_strlit(".");
        assert("."@ =~= seq!['.']);
    }
    if path.unicode_len() == 0 {
        part.to_owned()
    } else {
        let mut r = path.to_owned();
        r.append(".");
        r.append(part);
        r
    }
}

/// Index of the last `.` in `s`, or -1 if there is none.
pub open spec fn last_dot(s: Seq<char>) -> int
    decreases s.len(),
{
    if s.len() == 0 {
        -1
    } else if s[s.len() - 1] == '.' {
        s.len() - 1
    } else {
        last_dot(s.subrange(0, s.len() - 1))
    }
}

pub proof fn lemma_last_dot(s: Seq<char>)
    ensures
        last_dot(s) == -1 ==> forall|i: int| 0 <= i < s.len() ==> s[i] != '.',
        last_dot(s) != -1 ==> 0 <= last_dot(s) < s.len() && s[last_dot(s)] == '.',
    decreases s.len(),
{
    if s.len() > 0 && s[s.len() - 1] != '.' {
        let s1 = s.subrange(0, s.len() - 1);
        lemma_last_dot(s1);
        if last_dot(s1) == -1 {
            assert forall|i: int| 0 <= i < s.len() implies s[i] != '.' by {
                if i < s.len() - 1 {
                    assert(s1[i] == s[i]);
                }
            }
        } else {
            assert(s1[last_dot(s1)] == s[last_dot(s1)]);
        }
    }
}

/// A dot-free suffix pins `last_dot` down.
pub proof fn lemma_last_dot_scan(s: Seq<char>, i: int)
    requires
        0 <= i <= s.len(),
        forall|k: int| i <= k < s.len() ==> s[k] != '.',
    ensures
        i > 0 && s[i - 1] == '.' ==> last_dot(s) == i - 1,
        i == 0 ==> last_dot(s) == -1,
    decreases s.len() - i,
{
    if i < s.len() {
        let s1 = s.subrange(0, s.len() - 1);
        assert forall|k: int| i <= k < s1.len() implies s1[k] != '.' by {
            assert(s1[k] == s[k]);
        }
        lemma_last_dot_scan(s1, i);
        if i > 0 && s[i - 1] == '.' {
            assert(s1[i - 1] == s[i - 1]);
        }
    }
}

/// Finds the last `.` in a string slice.
pub fn find_last_dot(s: &str) -> (r: Option<usize>)
    ensures
        match r {
            Some(i) => last_dot(s@) == i as int,
            None => last_dot(s@) == -1,
        },
{
    let len = s.unicode_len();
    let mut i: usize = len;
    while i > 0
        invariant
            0 <= i <= len,
            len as nat == s@.len(),
            forall|k: int| i <= k < s@.len() ==> s@[k] != '.',
        decreases i,
    {
        if s.get_char(i - 1) == '.' {
            proof {
                lemma_last_dot_scan(s@, i as int);
            }
            return Some(i - 1);
        }
        i -= 1;
    }
    proof {
        lemma_last_dot_scan(s@, 0);
    }
    None
}

/// A sequence of names in strictly ascending lexicographic order; such a
/// sequence has no duplicates.
pub open spec fn strs_sorted(s: Seq<Seq<char>>) -> bool {
    forall|i: int| 0 <= i && i + 1 < s.len() ==> lex_lt(#[trigger] s[i], s[i + 1])
}

/// How many leading names are ordered strictly before `x`.
pub open spec fn strs_pos(s: Seq<Seq<char>>, x: Seq<char>) -> int
    decreases s.len(),
{
    if s.len() == 0 {
        0
    } else if lex_lt(s[0], x) {
        1 + strs_pos(s.subrange(1, s.len() as int), x)
    } else {
        0
    }
}

pub proof fn lemma_strs_pos_bounds(s: Seq<Seq<char>>, x: Seq<char>)
    ensures
        0 <= strs_pos(s, x) <= s.len(),
        forall|k: int| 0 <= k < strs_pos(s, x) ==> lex_lt(s[k], x),
        strs_pos(s, x) < s.len() ==> !lex_lt(s[strs_pos(s, x)], x),
    decreases s.len(),
{
    if s.len() > 0 && lex_lt(s[0], x) {
        let s1 = s.subrange(1, s.len() as int);
        lemma_strs_pos_bounds(s1, x);
        assert forall|k: int| 0 <= k < strs_pos(s, x) implies lex_lt(s[k], x) by {
            if k >= 1 {
                assert(s1[k - 1] == s[k]);
            }
        }
        if strs_pos(s, x) < s.len() {
            assert(s1[strs_pos(s1, x)] == s[strs_pos(s, x)]);
        }
    }
}

pub proof fn lemma_strs_pos_from_scan(s: Seq<Seq<char>>, x: Seq<char>, p: int)
    requires
        0 <= p <= s.len(),
        forall|k: int| 0 <= k < p ==> lex_lt(s[k], x),
        p < s.len() ==> !lex_lt(s[p], x),
    ensures
        strs_pos(s, x) == p,
    decreases p,
{
    if p > 0 {
        let s1 = s.subrange(1, s.len() as int);
        assert forall|k: int| 0 <= k < p - 1 implies lex_lt(s1[k], x) by {
            assert(s1[k] == s[k + 1]);
        }
        if p - 1 < s1.len() {
            assert(s1[p - 1] == s[p]);
        }
        lemma_strs_pos_from_scan(s1, x, p - 1);
    }
}

proof fn lemma_strs_sorted_chain(s: Seq<Seq<char>>, i: int, j: int)
    requires
        strs_sorted(s),
        0 <= i < j < s.len(),
    ensures
        lex_lt(s[i], s[j]),
    decreases j - i,
{
    if j == i + 1 {
    } else {
        lemma_strs_sorted_chain(s, i, j - 1);
        lemma_lex_trans(s[i], s[j - 1], s[j]);
    }
}

/// Sorted names are pairwise ordered, hence distinct.
pub proof fn lemma_strs_sorted_pairwise(s: Seq<Seq<char>>)
    requires
        strs_sorted(s),
    ensures
        forall|i: int, j: int| 0 <= i < j < s.len() ==> lex_lt(s[i], s[j]),
        forall|i: int, j: int| 0 <= i < j < s.len() ==> s[i] != s[j],
{
    assert forall|i: int, j: int| 0 <= i < j < s.len() implies lex_lt(s[i], s[j]) by {
        lemma_strs_sorted_chain(s, i, j);
    }
    assert forall|i: int, j: int| 0 <= i < j < s.len() implies s[i] != s[j] by {
        lemma_strs_sorted_chain(s, i, j);
        if s[i] == s[j] {
            lemma_lex_irrefl(s[i]);
        }
    }
}

/// Insertion into a sorted sequence of names, keeping it sorted and free of
/// duplicates: a name already present is left alone.
pub open spec fn str_ins(s: Seq<Seq<char>>, x: Seq<char>) -> Seq<Seq<char>> {
    let p = strs_pos(s, x);
    if p < s.len() && s[p] == x {
        s
    } else {
        s.insert(p, x)
    }
}

/// `str_ins` keeps the order.
pub proof fn lemma_str_ins_sorted(s: Seq<Seq<char>>, x: Seq<char>)
    requires
        strs_sorted(s),
    ensures
        strs_sorted(str_ins(s, x)),
{
    let p = strs_pos(s, x);
    lemma_strs_pos_bounds(s, x);
    if p < s.len() && s[p] == x {
    } else {
        let s2 = s.insert(p, x);
        assert forall|i: int| 0 <= i && i + 1 < s2.len() implies lex_lt(#[trigger] s2[i], s2[i + 1])
            by {
            if i + 1 < p {
                assert(s2[i] == s[i] && s2[i + 1] == s[i + 1]);
            } else if i + 1 == p {
                assert(s2[i] == s[i] && s2[i + 1] == x);
            } else if i == p {
                assert(s2[i] == x && s2[i + 1] == s[i]);
                lemma_lex_connex(x, s[i]);
            } else {
                assert(s2[i] == s[i - 1] && s2[i + 1] == s[i]);
            }
        }
    }
}

/// Whether a sequence of names holds `x`.
pub open spec fn strs_has(s: Seq<Seq<char>>, x: Seq<char>) -> bool {
    exists|i: int| 0 <= i < s.len() && s[i] == x
}

/// What `str_ins` holds: the new name, everything that was there, and
/// nothing else.
pub proof fn lemma_str_ins_membership(s: Seq<Seq<char>>, x: Seq<char>)
    ensures
        strs_has(str_ins(s, x), x),
        forall|y: Seq<char>| #[trigger] strs_has(str_ins(s, x), y) <==> strs_has(s, y) || y == x,
{
    let p = strs_pos(s, x);
    lemma_strs_pos_bounds(s, x);
    if p < s.len() && s[p] == x {
        assert(str_ins(s, x)[p] == x);
        assert(strs_has(str_ins(s, x), x));
        assert forall|y: Seq<char>| #[trigger]
            strs_has(str_ins(s, x), y) <==> strs_has(s, y) || y == x by {
            assert(str_ins(s, x) == s);
        }
    } else {
        let s2 = s.insert(p, x);
        assert(s2[p] == x);
        assert(strs_has(s2, x));
        assert forall|y: Seq<char>| #[trigger] strs_has(s2, y) <==> strs_has(s, y) || y == x by {
            if strs_has(s2, y) {
                let i = choose|i: int| 0 <= i < s2.len() && s2[i] == y;
                if i < p {
                    assert(s[i] == y);
                } else if i > p {
                    assert(s[i - 1] == y);
                }
            }
            if strs_has(s, y) {
                let i = choose|i: int| 0 <= i < s.len() && s[i] == y;
                if i < p {
                    assert(s2[i] == y);
                } else {
                    assert(s2[i + 1] == y);
                }
            }
        }
    }
}

/// Inserts a name into a sorted vector of names, unless it is already there.
pub fn insert_sorted_str(v: &mut Vec<String>, x: &str)
    requires
        strs_sorted(seg_views(old(v)@)),
    ensures
        seg_views(final(v)@) == str_ins(seg_views(old(v)@), x@),
        strs_sorted(seg_views(final(v)@)),
{
    let ghost s = seg_views(old(v)@);
    let n = v.len();
    let mut j: usize = 0;
    while j < n && str_lt(v[j].as_str(), x)
        invariant
            0 <= j <= n,
            v == old(v),
            n == v@.len(),
            forall|k: int| 0 <= k < j ==> lex_lt(#[trigger] seg_views(v@)[k], x@),
        decreases n - j,
    {
        proof {
            assert(seg_views(v@)[j as int] == v@[j as int]@);
        }
        j += 1;
    }
    proof {
        assert(forall|k: int| 0 <= k < s.len() ==> s[k] == v@[k]@);
        lemma_strs_pos_from_scan(s, x@, j as int);
        assert(strs_pos(s, x@) == j);
        lemma_str_ins_sorted(s, x@);
    }
    if j < v.len() && str_eq(v[j].as_str(), x) {
        proof {
            assert(s[j as int] == x@);
            assert(seg_views(v@) =~= str_ins(s, x@));
        }
    } else {
        v.insert(j, x.to_owned());
        proof {
            assert(seg_views(v@) =~= s.insert(j as int, x@));
            if (j as int) < s.len() {
                assert(s[j as int] != x@);
            }
            assert(seg_views(v@) =~= str_ins(s, x@));
        }
    }
}

/// Cumulative breadcrumb path for each prefix of `names`: element `i` is the
/// first `i + 1` segments joined with dots.
pub open spec fn link_at(names: Seq<Seq<char>>, i: int) -> Seq<char>
    decreases i,
{
    if i <= 0 {
        names[0]
    } else {
        dotted(link_at(names, i - 1), names[i])
    }
}

/// Progressively joins each name part to the previous ones.
pub fn get_links(names: &Vec<String>) -> (r: Vec<String>)
    ensures
        r@.len() == names@.len(),
        forall|i: int| 0 <= i < r@.len() ==> r@[i]@ == link_at(seg_views(names@), i),
{
    let mut links: Vec<String> = Vec::new();
    let mut prev = String::new();
    let n = names.len();
    let mut j: usize = 0;
    while j < n
        invariant
            0 <= j <= n,
            n == names@.len(),
            links@.len() == j,
            j == 0 ==> prev@.len() == 0,
            j > 0 ==> prev@ == link_at(seg_views(names@), j - 1),
            forall|i: int| 0 <= i < j ==> links@[i]@ == link_at(seg_views(names@), i),
        decreases n - j,
    {
        prev = join_dotted(prev.as_str(), names[j].as_str());
        proof {
            assert(seg_views(names@)[j as int] == names@[j as int]@);
        }
        links.push(prev.clone());
        j += 1;
    }
    links
}

} // verus!
