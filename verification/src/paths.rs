use vstd::prelude::*;

use crate::text::chars_of;

verus! {

/// Lexical state after reading `s`: the depth of `[...]` subscript
/// brackets and whether a `'...'` quoted identifier is open.
pub open spec fn path_scan(s: Seq<char>) -> (int, bool)
    decreases s.len(),
{
    if s.len() == 0 {
        (0, false)
    } else {
        let (depth, quoted) = path_scan(s.drop_last());
        let c = s.last();
        if quoted {
            (depth, c != '\'')
        } else if c == '\'' {
            (depth, true)
        } else if c == '[' {
            (depth + 1, false)
        } else if c == ']' {
            (depth - 1, false)
        } else {
            (depth, false)
        }
    }
}

/// Position `i` of `s` is a dot that separates scopes of a dotted path:
/// it is neither inside subscript brackets nor inside a quoted identifier.
pub open spec fn is_scope_dot(s: Seq<char>, i: int) -> bool {
    0 <= i < s.len() && s[i] == '.' && path_scan(s.take(i)) == (0int, false)
}

/// `k` is the last scope-separating dot of `s`.
pub open spec fn is_last_scope_dot(s: Seq<char>, k: int) -> bool {
    is_scope_dot(s, k) && forall|j: int| k < j < s.len() ==> !is_scope_dot(s, j)
}

pub open spec fn has_scope_dot(s: Seq<char>) -> bool {
    exists|i: int| is_scope_dot(s, i)
}

/// The last path segment: what follows the last scope dot, or the whole path.
pub open spec fn spec_leaf_segment(s: Seq<char>) -> Seq<char> {
    if has_scope_dot(s) {
        let k = choose|k: int| is_last_scope_dot(s, k);
        s.skip(k + 1)
    } else {
        s
    }
}

/// No character of `s` opens a quoted identifier or a subscript bracket.
pub open spec fn is_plain_text(s: Seq<char>) -> bool {
    forall|i: int| 0 <= i < s.len() ==> #[trigger] s[i] != '\'' && s[i] != '[' && s[i] != ']'
}

/// A plain identifier: plain text without any dot.
pub open spec fn is_simple_identifier(s: Seq<char>) -> bool {
    is_plain_text(s) && forall|i: int| 0 <= i < s.len() ==> #[trigger] s[i] != '.'
}

/// After a prefix that leaves no bracket or quote open, scanning goes on
/// as from the start.
pub proof fn lemma_scan_concat(a: Seq<char>, b: Seq<char>)
    requires
        path_scan(a) == (0int, false),
    ensures
        path_scan(a + b) == path_scan(b),
    decreases b.len(),
{
    if b.len() == 0 {
        assert(a + b =~= a);
    } else {
        lemma_scan_concat(a, b.drop_last());
        assert((a + b).drop_last() =~= a + b.drop_last());
        assert((a + b).last() == b.last());
    }
}

/// Plain text leaves no bracket or quote open.
pub proof fn lemma_scan_plain(a: Seq<char>)
    requires
        is_plain_text(a),
    ensures
        path_scan(a) == (0int, false),
    decreases a.len(),
{
    if a.len() > 0 {
        let c = a[a.len() - 1];
        assert(c != '\'' && c != '[' && c != ']');
        assert(is_plain_text(a.drop_last())) by {
            assert forall|i: int| 0 <= i < a.drop_last().len() implies #[trigger] a.drop_last()[i]
                != '\'' && a.drop_last()[i] != '[' && a.drop_last()[i] != ']' by {
                assert(a.drop_last()[i] == a[i]);
            }
        }
        lemma_scan_plain(a.drop_last());
    }
}

/// Behind a prefix that leaves nothing open, the scope dots of the rest
/// are those of the rest read alone.
pub proof fn lemma_scope_dot_shift(p: Seq<char>, b: Seq<char>, j: int)
    requires
        path_scan(p) == (0int, false),
        0 <= j < b.len(),
    ensures
        is_scope_dot(p + b, p.len() + j) == is_scope_dot(b, j),
{
    assert((p + b).take(p.len() + j) =~= p + b.take(j));
    lemma_scan_concat(p, b.take(j));
    assert((p + b)[p.len() + j] == b[j]);
}

/// A path has at most one last scope dot.
pub proof fn lemma_last_scope_dot_unique(s: Seq<char>, k1: int, k2: int)
    requires
        is_last_scope_dot(s, k1),
        is_last_scope_dot(s, k2),
    ensures
        k1 == k2,
{
    if k1 < k2 {
        assert(!is_scope_dot(s, k2));
    }
    if k2 < k1 {
        assert(!is_scope_dot(s, k1));
    }
}

/// A path joined to a dot-free rest by a dot, with nothing open before
/// it, has that dot as its last scope dot and the rest as its leaf.
pub proof fn lemma_leaf_after_scope_dot(a: Seq<char>, b: Seq<char>)
    requires
        path_scan(a) == (0int, false),
        !has_scope_dot(b),
    ensures
        is_last_scope_dot(a + seq!['.'] + b, a.len() as int),
        spec_leaf_segment(a + seq!['.'] + b) == b,
{
    let p = a + seq!['.'];
    let name = p + b;
    assert(a + seq!['.'] + b =~= name);
    assert(p.drop_last() =~= a);
    assert(p.last() == '.');
    assert(path_scan(p) == (0int, false));
    assert(name.take(a.len() as int) =~= a);
    assert(name[a.len() as int] == '.');
    assert(is_scope_dot(name, a.len() as int));
    assert forall|j: int| a.len() < j < name.len() implies !is_scope_dot(name, j) by {
        lemma_scope_dot_shift(p, b, j - p.len());
        assert(p.len() + (j - p.len()) == j);
        assert(!is_scope_dot(b, j - p.len()));
    }
    assert(is_last_scope_dot(name, a.len() as int));
    let k = choose|k: int| is_last_scope_dot(name, k);
    lemma_last_scope_dot_unique(name, k, a.len() as int);
    assert(name.skip(a.len() as int + 1) =~= b);
}

/// Taking the last path segment twice changes nothing: a leaf holds no
/// scope dot.
pub proof fn law_leaf_segment_idempotent(s: Seq<char>)
    ensures
        spec_leaf_segment(spec_leaf_segment(s)) == spec_leaf_segment(s),
        !has_scope_dot(spec_leaf_segment(s)),
{
    if has_scope_dot(s) {
        let i0 = choose|i: int| is_scope_dot(s, i);
        lemma_last_scope_dot_exists(s, i0);
        let k = choose|k: int| is_last_scope_dot(s, k);
        let t = s.skip(k + 1);
        let p = s.take(k + 1);
        assert(s =~= p + t);
        assert(p.drop_last() =~= s.take(k));
        assert(p.last() == '.');
        assert(path_scan(p) == (0int, false));
        assert forall|j: int| !is_scope_dot(t, j) by {
            if 0 <= j < t.len() {
                lemma_scope_dot_shift(p, t, j);
                assert(p.len() + j == k + 1 + j);
                assert(!is_scope_dot(s, k + 1 + j));
            }
        }
    }
}

/// A path with a scope dot has a last one.
proof fn lemma_last_scope_dot_exists(s: Seq<char>, i: int)
    requires
        is_scope_dot(s, i),
    ensures
        exists|k: int| is_last_scope_dot(s, k),
    decreases s.len() - i,
{
    if !is_last_scope_dot(s, i) {
        let j = choose|j: int| i < j < s.len() && is_scope_dot(s, j);
        lemma_last_scope_dot_exists(s, j);
    }
}

/// The position of the last scope dot, if there is one.
fn last_scope_dot(chars: &Vec<char>) -> (r: Option<usize>)
    ensures
        match r {
            Some(k) => is_last_scope_dot(chars@, k as int),
            None => !has_scope_dot(chars@),
        },
{
    let mut depth: i128 = 0;
    let mut quoted = false;
    let mut last: Option<usize> = None;
    let mut i: usize = 0;
    while i < chars.len()
        invariant
            i <= chars.len(),
            chars.len() <= usize::MAX,
            -(i as int) <= depth <= i as int,
            path_scan(chars@.take(i as int)) == (depth as int, quoted),
            match last {
                Some(k) => k < i && is_scope_dot(chars@, k as int) && forall|j: int|
                    k < j < i ==> !is_scope_dot(chars@, j),
                None => forall|j: int| 0 <= j < i ==> !is_scope_dot(chars@, j),
            },
        decreases chars.len() - i,
    {
        let c = chars[i];
        proof {
            assert(chars@.take(i + 1).drop_last() =~= chars@.take(i as int));
            assert(chars@.take(i + 1).last() == c);
        }
        if !quoted && depth == 0 && c == '.' {
            last = Some(i);
        }
        if quoted {
            quoted = c != '\'';
        } else if c == '\'' {
            quoted = true;
        } else if c == '[' {
            depth = depth + 1;
        } else if c == ']' {
            depth = depth - 1;
        }
        i = i + 1;
    }
    proof {
        assert(chars@.take(chars@.len() as int) =~= chars@);
        if last is None {
            assert forall|j: int| !is_scope_dot(chars@, j) by {
                if 0 <= j < chars@.len() {
                }
            }
        }
    }
    last
}

/// Split a dotted path at its last scope dot into scope and leaf.
pub fn scope_split(name: &str) -> (r: Option<(&str, &str)>)
    ensures
        match r {
            Some((scope, leaf)) => exists|k: int|
                is_last_scope_dot(name@, k) && scope@ == name@.take(k) && leaf@ == name@.skip(
                    k + 1,
                ),
            None => !has_scope_dot(name@),
        },
{
    let chars = chars_of(name);
    match last_scope_dot(&chars) {
        Some(k) => {
            let len = chars.len();
            let scope = name.substring_char(0, k);
            let leaf = name.substring_char(k + 1, len);
            proof {
                assert(scope@ =~= name@.take(k as int));
                assert(leaf@ =~= name@.skip(k + 1));
            }
            Some((scope, leaf))
        },
        None => None,
    }
}

/// The last segment of a dotted path.
pub fn leaf_segment(name: &str) -> (leaf: &str)
    ensures
        leaf@ == spec_leaf_segment(name@),
{
    let chars = chars_of(name);
    match last_scope_dot(&chars) {
        Some(k) => {
            assert(k < chars.len());
            proof {
                let c = choose|c: int| is_last_scope_dot(name@, c);
                assert(c == k as int) by {
                    if c < k {
                        assert(!is_scope_dot(name@, k as int));
                    }
                    if c > k {
                        assert(!is_scope_dot(name@, c));
                    }
                }
            }
            let leaf = name.substring_char(k + 1, chars.len());
            proof {
                assert(leaf@ =~= name@.skip(k + 1));
            }
            leaf
        },
        None => name,
    }
}

/// String equality by content.
pub fn str_eq(a: &str, b: &str) -> (r: bool)
    ensures
        r == (a@ == b@),
{
    let x = String::from_str(a);
    let y = String::from_str(b);
    x == y
}

/// The text after `prefix`, when `s` starts with it.
pub fn strip_prefix<'a>(s: &'a str, prefix: &str) -> (r: Option<&'a str>)
    ensures
        match r {
            Some(rest) => prefix@.len() <= s@.len() && s@.take(prefix@.len() as int) == prefix@
                && rest@ == s@.skip(prefix@.len() as int),
            None => !(prefix@.len() <= s@.len() && s@.take(prefix@.len() as int) == prefix@),
        },
{
    let sc = chars_of(s);
    let pc = chars_of(prefix);
    if pc.len() > sc.len() {
        return None;
    }
    let mut i: usize = 0;
    while i < pc.len()
        invariant
            i <= pc.len(),
            pc.len() <= sc.len(),
            sc@ == s@,
            pc@ == prefix@,
            forall|j: int| 0 <= j < i ==> sc@[j] == pc@[j],
        decreases pc.len() - i,
    {
        if sc[i] != pc[i] {
            proof {
                assert(s@.take(prefix@.len() as int)[i as int] != prefix@[i as int]);
            }
            return None;
        }
        i = i + 1;
    }
    proof {
        assert(s@.take(prefix@.len() as int) =~= prefix@);
    }
    let rest = s.substring_char(pc.len(), sc.len());
    proof {
        assert(rest@ =~= s@.skip(prefix@.len() as int));
    }
    Some(rest)
}

/// A dotted path with every `.` replaced by `_`: the name a flattened
/// record field gets.
pub open spec fn spec_flatten_dots(s: Seq<char>) -> Seq<char> {
    s.map_values(|c: char| if c == '.' { '_' } else { c })
}

/// `name` with every `.` replaced by `_`.
pub fn flatten_dots(name: &str) -> (flat: String)
    ensures
        flat@ == spec_flatten_dots(name@),
{
    let chars = chars_of(name);
    let mut out = String::new();
    let mut start: usize = 0;
    let mut i: usize = 0;
    proof {
        reveal_strlit("_");
        assert(spec_flatten_dots(name@.take(0)) =~= Seq::<char>::empty());
    }
    while i < chars.len()
        invariant
            start <= i <= chars.len(),
            chars@ == name@,
            "_"@ == seq!['_'],
            out@ == spec_flatten_dots(name@.take(start as int)),
            forall|j: int| start <= j < i ==> name@[j] != '.',
        decreases chars.len() - i,
    {
        if chars[i] == '.' {
            let segment = name.substring_char(start, i);
            out.append(segment);
            out.append("_");
            proof {
                assert(spec_flatten_dots(name@.take(i + 1)) =~= spec_flatten_dots(
                    name@.take(start as int),
                ) + name@.subrange(start as int, i as int) + "_"@);
            }
            start = i + 1;
        }
        i = i + 1;
    }
    let segment = name.substring_char(start, chars.len());
    out.append(segment);
    proof {
        assert(spec_flatten_dots(name@) =~= spec_flatten_dots(name@.take(start as int))
            + name@.subrange(start as int, name@.len() as int));
    }
    out
}

/// Whether `s` ends with `suffix`.
pub open spec fn spec_ends_with(s: Seq<char>, suffix: Seq<char>) -> bool {
    suffix.len() <= s.len() && s.skip(s.len() - suffix.len()) == suffix
}

/// Whether `s` ends with `suffix`.
pub fn ends_with(s: &str, suffix: &str) -> (r: bool)
    ensures
        r == spec_ends_with(s@, suffix@),
{
    let sc = chars_of(s);
    let xc = chars_of(suffix);
    if xc.len() > sc.len() {
        return false;
    }
    let offset = sc.len() - xc.len();
    let mut i: usize = 0;
    while i < xc.len()
        invariant
            i <= xc.len(),
            offset + xc.len() == sc.len(),
            sc@ == s@,
            xc@ == suffix@,
            forall|j: int| 0 <= j < i ==> sc@[offset + j] == xc@[j],
        decreases xc.len() - i,
    {
        if sc[offset + i] != xc[i] {
            proof {
                assert(s@.skip(offset as int)[i as int] != suffix@[i as int]);
            }
            return false;
        }
        i = i + 1;
    }
    proof {
        assert(s@.skip(offset as int) =~= suffix@);
    }
    true
}

} // verus!
