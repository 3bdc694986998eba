//! Paths that come out of an archive, made safe before anything is written
//! under them.

use crate::error::DecompressionError;
use crate::text::{chars_of, is_space, string_of, trim, trim_chars};
use vstd::prelude::*;

verus! {
/// `c` parts the components of a path.
pub open spec fn is_separator(c: char) -> bool {
    c == '/' || c == '\\'
}

/// `c` may not stand in a file name.
pub open spec fn is_invalid(c: char) -> bool {
    c == '<' || c == '>' || c == ':' || c == '"' || c == '|' || c == '?' || c == '*'
}

/// The pieces of `s` between its separators: one more than it has
/// separators, empty ones included.
pub open spec fn split(s: Seq<char>) -> Seq<Seq<char>>
    decreases s.len(),
{
    if s.len() == 0 {
        seq![Seq::empty()]
    } else {
        let before = split(s.drop_last());
        if is_separator(s.last()) {
            before.push(Seq::empty())
        } else {
            before.drop_last().push(before.last().push(s.last()))
        }
    }
}

/// The component `c` is kept: it is not empty and names neither the
/// directory itself nor its parent.
pub open spec fn is_kept(c: Seq<char>) -> bool {
    c.len() > 0 && c != seq!['.'] && c != seq!['.', '.']
}

/// `c`, or an underscore in its place where it may not stand in a name.
pub open spec fn clean_char(c: char) -> char {
    if is_invalid(c) {
        '_'
    } else {
        c
    }
}

/// The component `c` with an underscore for each invalid character.
pub open spec fn clean(c: Seq<char>) -> Seq<char> {
    Seq::new(c.len(), |i: int| clean_char(c[i]))
}

/// The components of `parts` that are kept, each cleaned, in order.
pub open spec fn kept_components(parts: Seq<Seq<char>>) -> Seq<Seq<char>>
    decreases parts.len(),
{
    if parts.len() == 0 {
        Seq::empty()
    } else if is_kept(parts.last()) {
        kept_components(parts.drop_last()).push(clean(parts.last()))
    } else {
        kept_components(parts.drop_last())
    }
}

/// The components of `parts` with a slash between each two.
pub open spec fn join(parts: Seq<Seq<char>>) -> Seq<char>
    decreases parts.len(),
{
    if parts.len() == 0 {
        Seq::empty()
    } else if parts.len() == 1 {
        parts[0]
    } else {
        join(parts.drop_last()) + seq!['/'] + parts.last()
    }
}

/// `t` is refused outright: it is empty, starts at a root, or holds a
/// colon, as a drive or volume marker does.
pub open spec fn is_refused(t: Seq<char>) -> bool {
    t.len() == 0 || is_separator(t[0]) || t.contains(':')
}

/// The safe form of `path`, or nothing where `path` is refused or nothing
/// of it is left: white space at both ends is cut, the components `.` and
/// `..` and empty ones are dropped, and invalid characters are replaced.
pub open spec fn sanitized(path: Seq<char>) -> Option<Seq<char>> {
    let t = trim(path);
    let parts = kept_components(split(t));
    if is_refused(t) || parts.len() == 0 {
        None
    } else {
        Some(join(parts))
    }
}

/// The components of `parts`, each as its characters.
pub open spec fn component_views(parts: Seq<Vec<char>>) -> Seq<Seq<char>> {
    Seq::new(parts.len(), |i: int| parts[i]@)
}

/// A component that can stand under a root without leaving it: a name that
/// is kept, with no separator and no invalid character in it.
pub open spec fn is_safe_component(c: Seq<char>) -> bool {
    is_kept(c) && forall|i: int| 0 <= i < c.len() ==> !is_separator(#[trigger] c[i]) && !is_invalid(c[i])
}

/// Splitting always gives at least one piece, and no piece holds a
/// separator.
pub proof fn lemma_split_pieces(s: Seq<char>)
    ensures
        split(s).len() >= 1,
        forall|k: int, i: int|
            0 <= k < split(s).len() && 0 <= i < split(s)[k].len() ==> !is_separator(
                #[trigger] split(s)[k][i],
            ),
    decreases s.len(),
{
    if s.len() > 0 {
        lemma_split_pieces(s.drop_last());
    }
}

/// What is kept of pieces without separators is safe, component by
/// component.
pub proof fn lemma_kept_are_safe(parts: Seq<Seq<char>>)
    requires
        forall|k: int, i: int|
            0 <= k < parts.len() && 0 <= i < parts[k].len() ==> !is_separator(
                #[trigger] parts[k][i],
            ),
    ensures
        forall|k: int|
            0 <= k < kept_components(parts).len() ==> is_safe_component(
                #[trigger] kept_components(parts)[k],
            ),
    decreases parts.len(),
{
    if parts.len() > 0 {
        let init = parts.drop_last();
        lemma_kept_are_safe(init);
        let last = parts.last();
        if is_kept(last) {
            let c = clean(last);
            assert forall|i: int| 0 <= i < c.len() implies !is_separator(#[trigger] c[i])
                && !is_invalid(c[i]) by {}
            if c == seq!['.'] {
                assert(last =~= seq!['.']);
            }
            if c == seq!['.', '.'] {
                assert(last =~= seq!['.', '.']);
            }
            assert forall|k: int| 0 <= k < kept_components(parts).len() implies is_safe_component(
                #[trigger] kept_components(parts)[k],
            ) by {
                if k < kept_components(init).len() {
                    assert(kept_components(parts)[k] == kept_components(init)[k]);
                }
            }
        }
    }
}

/// Text without separators that follows other text lengthens its last
/// piece.
proof fn lemma_split_append(a: Seq<char>, b: Seq<char>)
    requires
        forall|i: int| 0 <= i < b.len() ==> !is_separator(#[trigger] b[i]),
    ensures
        split(a).len() >= 1,
        split(a + b) == split(a).drop_last().push(split(a).last() + b),
    decreases b.len(),
{
    lemma_split_pieces(a);
    let pieces = split(a);
    if b.len() == 0 {
        assert(a + b =~= a);
        assert(pieces.last() + b =~= pieces.last());
        assert(pieces.drop_last().push(pieces.last()) =~= pieces);
    } else {
        let init = b.drop_last();
        assert forall|i: int| 0 <= i < init.len() implies !is_separator(#[trigger] init[i]) by {
            assert(init[i] == b[i]);
        }
        lemma_split_append(a, init);
        assert((a + b).drop_last() =~= a + init);
        assert((a + b).last() == b.last());
        assert(!is_separator(b[b.len() - 1]));
        let before = pieces.drop_last().push(pieces.last() + init);
        assert(before.drop_last() =~= pieces.drop_last());
        assert((pieces.last() + init).push(b.last()) =~= pieces.last() + b);
    }
}

/// The pieces of safe components joined by slashes are the components.
pub proof fn lemma_split_join(parts: Seq<Seq<char>>)
    requires
        parts.len() > 0,
        forall|k: int| 0 <= k < parts.len() ==> is_safe_component(#[trigger] parts[k]),
    ensures
        split(join(parts)) == parts,
    decreases parts.len(),
{
    let last = parts.last();
    assert(is_safe_component(parts[parts.len() - 1]));
    if parts.len() == 1 {
        lemma_split_append(Seq::<char>::empty(), last);
        assert(Seq::<char>::empty() + last =~= last);
        assert(split(Seq::<char>::empty()) =~= seq![Seq::<char>::empty()]);
        assert(split(last) =~= seq![last]);
        assert(parts =~= seq![last]);
    } else {
        let init = parts.drop_last();
        assert forall|k: int| 0 <= k < init.len() implies is_safe_component(#[trigger] init[k]) by {
            assert(init[k] == parts[k]);
        }
        lemma_split_join(init);
        let head = join(init) + seq!['/'];
        assert(head.drop_last() =~= join(init));
        assert(split(head) == init.push(Seq::<char>::empty()));
        lemma_split_append(head, last);
        assert(init.push(Seq::<char>::empty()).drop_last() =~= init);
        assert(Seq::<char>::empty() + last =~= last);
        assert(init.push(last) =~= parts);
    }
}

/// The components of a safe path: what `sanitized` joined, where it gave
/// one.
pub open spec fn safe_components(path: Seq<char>) -> Seq<Seq<char>> {
    kept_components(split(trim(path)))
}

/// Whatever the path, what `sanitized` gives is built of safe components
/// alone, at least one, and split at its slashes it gives them again:
/// joined under a root, it stays below the root.
pub proof fn lemma_sanitized_is_safe(path: Seq<char>)
    requires
        sanitized(path) is Some,
    ensures
        safe_components(path).len() > 0,
        sanitized(path) == Some(join(safe_components(path))),
        split(sanitized(path)->0) == safe_components(path),
        forall|k: int|
            0 <= k < safe_components(path).len() ==> is_safe_component(
                #[trigger] safe_components(path)[k],
            ),
{
    lemma_split_pieces(trim(path));
    lemma_kept_are_safe(split(trim(path)));
    lemma_split_join(safe_components(path));
}

/// `sanitized` leaves `path` as it is.
pub open spec fn stays_as_it_is(path: Seq<char>) -> bool {
    sanitized(path) == Some(path)
}

/// `path` is one that `sanitized` leaves as it is: relative, with slashes
/// between names that are kept, no white space at either end, and neither
/// a backslash nor an invalid character in it.
pub open spec fn is_clean_path(path: Seq<char>) -> bool {
    &&& path.len() > 0
    &&& !is_space(path[0])
    &&& !is_space(path.last())
    &&& forall|i: int| 0 <= i < path.len() ==> !is_invalid(#[trigger] path[i]) && path[i] != '\\'
    &&& forall|k: int| 0 <= k < split(path).len() ==> is_kept(#[trigger] split(path)[k])
}

/// No piece of a text without invalid characters holds one.
proof fn lemma_split_valid(s: Seq<char>)
    requires
        forall|i: int| 0 <= i < s.len() ==> !is_invalid(#[trigger] s[i]),
    ensures
        forall|k: int, i: int|
            0 <= k < split(s).len() && 0 <= i < split(s)[k].len() ==> !is_invalid(
                #[trigger] split(s)[k][i],
            ),
    decreases s.len(),
{
    if s.len() > 0 {
        let init = s.drop_last();
        assert forall|i: int| 0 <= i < init.len() implies !is_invalid(#[trigger] init[i]) by {
            assert(init[i] == s[i]);
        }
        lemma_split_valid(init);
        lemma_split_pieces(init);
        let before = split(init);
        assert(!is_invalid(s[s.len() - 1]));
        assert forall|k: int, i: int|
            0 <= k < split(s).len() && 0 <= i < split(s)[k].len() implies !is_invalid(
            #[trigger] split(s)[k][i],
        ) by {
            if k < before.len() - 1 {
                assert(split(s)[k] == before[k]);
            } else if is_separator(s.last()) {
                if k < before.len() {
                    assert(split(s)[k] == before[k]);
                }
            } else {
                if i < before.last().len() {
                    assert(split(s)[k][i] == before.last()[i]);
                }
            }
        }
    }
}

/// Where every component is kept and holds no invalid character, all of
/// them stay as they are.
proof fn lemma_kept_identity(parts: Seq<Seq<char>>)
    requires
        forall|k: int| 0 <= k < parts.len() ==> is_kept(#[trigger] parts[k]),
        forall|k: int, i: int|
            0 <= k < parts.len() && 0 <= i < parts[k].len() ==> !is_invalid(#[trigger] parts[k][i]),
    ensures
        kept_components(parts) == parts,
    decreases parts.len(),
{
    if parts.len() > 0 {
        let init = parts.drop_last();
        lemma_kept_identity(init);
        let last = parts.last();
        assert(clean(last) =~= last);
    }
}

/// The pieces of a text without backslashes, joined by slashes, are the
/// text.
proof fn lemma_join_split(s: Seq<char>)
    requires
        forall|i: int| 0 <= i < s.len() ==> #[trigger] s[i] != '\\',
    ensures
        join(split(s)) == s,
    decreases s.len(),
{
    if s.len() > 0 {
        let init = s.drop_last();
        let c = s.last();
        lemma_join_split(init);
        let before = split(init);
        if is_separator(c) {
            let after = before.push(Seq::<char>::empty());
            assert(after.drop_last() =~= before);
        } else {
            let after = before.drop_last().push(before.last().push(c));
            assert(after.drop_last() =~= before.drop_last());
        }
        assert(init.push(c) =~= s);
    }
}

/// A clean path is what `sanitized` makes of it.
pub proof fn lemma_clean_path_stays(path: Seq<char>)
    requires
        is_clean_path(path),
    ensures
        stays_as_it_is(path),
{
    assert(!is_separator(path[0])) by {
        if path[0] == '/' {
            lemma_first_piece_empty(path);
        }
    }
    lemma_split_valid(path);
    lemma_kept_identity(split(path));
    lemma_join_split(path);
}

/// The first piece of a text that starts with a separator is empty.
proof fn lemma_first_piece_empty(s: Seq<char>)
    requires
        s.len() > 0,
        is_separator(s[0]),
    ensures
        split(s)[0].len() == 0,
        split(s).len() >= 2,
    decreases s.len(),
{
    let init = s.drop_last();
    if init.len() == 0 {
        assert(split(init) =~= seq![Seq::<char>::empty()]);
    } else {
        lemma_first_piece_empty(init);
    }
}

/// Where a list of components leads, read as a path is read: an empty
/// component and `.` stay where they are, `..` steps back to the parent,
/// and any other component steps down into it.
pub open spec fn resolved(parts: Seq<Seq<char>>) -> Seq<Seq<char>>
    decreases parts.len(),
{
    if parts.len() == 0 {
        Seq::empty()
    } else {
        let before = resolved(parts.drop_last());
        let last = parts.last();
        if last == seq!['.', '.'] {
            if before.len() > 0 {
                before.drop_last()
            } else {
                before
            }
        } else if last.len() == 0 || last == seq!['.'] {
            before
        } else {
            before.push(last)
        }
    }
}

/// Safe components only ever step down: joined behind any root, they lead
/// to a place below where the root leads, and that place is the root with
/// the components behind it.
pub proof fn lemma_safe_components_stay_below(root: Seq<Seq<char>>, safe: Seq<Seq<char>>)
    requires
        forall|k: int| 0 <= k < safe.len() ==> is_safe_component(#[trigger] safe[k]),
    ensures
        resolved(root + safe) == resolved(root) + safe,
        resolved(root + safe).len() >= resolved(root).len(),
        resolved(root + safe).subrange(0, resolved(root).len() as int) == resolved(root),
    decreases safe.len(),
{
    if safe.len() == 0 {
        assert(root + safe =~= root);
        assert(resolved(root) + safe =~= resolved(root));
    } else {
        let init = safe.drop_last();
        assert forall|k: int| 0 <= k < init.len() implies is_safe_component(#[trigger] init[k]) by {
            assert(init[k] == safe[k]);
        }
        lemma_safe_components_stay_below(root, init);
        assert((root + safe).drop_last() =~= root + init);
        assert((root + safe).last() == safe.last());
        assert(is_safe_component(safe[safe.len() - 1]));
        assert(resolved(root + safe) =~= resolved(root) + safe);
    }
    assert(resolved(root + safe).subrange(0, resolved(root).len() as int) =~= resolved(root));
}

/// Whatever the path out of an archive and whatever the root: what
/// `sanitized` makes of the path, joined behind the root, leads to a place
/// below the root.
pub proof fn lemma_sanitized_stays_below(path: Seq<char>, root: Seq<Seq<char>>)
    requires
        sanitized(path) is Some,
    ensures
        split(sanitized(path)->0) == safe_components(path),
        resolved(root + safe_components(path)) == resolved(root) + safe_components(path),
        resolved(root + safe_components(path)).subrange(0, resolved(root).len() as int)
            == resolved(root),
        resolved(root + safe_components(path)).len() > resolved(root).len(),
{
    lemma_sanitized_is_safe(path);
    lemma_safe_components_stay_below(root, safe_components(path));
}

fn is_separator_char(c: char) -> (r: bool)
    ensures
        r == is_separator(c),
{
    c == '/' || c == '\\'
}

fn clean_component(c: &Vec<char>) -> (r: Vec<char>)
    ensures
        r@ == clean(c@),
{
    let n = c.len();
    let mut out: Vec<char> = Vec::new();
    let mut i: usize = 0;
    while i < n
        invariant
            n == c@.len(),
            i <= n,
            out@.len() == i,
            forall|j: int| 0 <= j < i ==> out@[j] == clean_char(c@[j]),
        decreases n - i,
    {
        let x = c[i];
        if x == '<' || x == '>' || x == ':' || x == '"' || x == '|' || x == '?' || x == '*' {
            out.push('_');
        } else {
            out.push(x);
        }
        i += 1;
    }
    out
}

fn is_kept_component(c: &Vec<char>) -> (r: bool)
    ensures
        r == is_kept(c@),
{
    if c.len() == 0 {
        return false;
    }
    if c.len() == 1 && c[0] == '.' {
        assert(c@ =~= seq!['.']);
        return false;
    }
    if c.len() == 2 && c[0] == '.' && c[1] == '.' {
        assert(c@ =~= seq!['.', '.']);
        return false;
    }
    true
}

/// The safe components of a path that came out of an archive, or
/// `InvalidFormat` where the path is refused or nothing of it is left.
#[verifier::loop_isolation(false)]
pub fn sanitize_components(path: &str) -> (r: Result<Vec<Vec<char>>, DecompressionError>)
    ensures
        match r {
            Ok(parts) => sanitized(path@) is Some && component_views(parts@) == safe_components(path@),
            Err(e) => e is InvalidFormat && sanitized(path@) is None,
        },
{
    let all = chars_of(path);
    let t = trim_chars(&all);
    let n = t.len();
    if n == 0 || is_separator_char(t[0]) {
        return Err(DecompressionError::InvalidFormat);
    }
    let mut kept: Vec<Vec<char>> = Vec::new();
    let mut current: Vec<char> = Vec::new();
    let mut i: usize = 0;
    while i < n
        invariant
            n == t@.len(),
            i <= n,
            split(t@.take(i as int)).len() >= 1,
            component_views(kept@) == kept_components(split(t@.take(i as int)).drop_last()),
            current@ == split(t@.take(i as int)).last(),
            forall|j: int| 0 <= j < i ==> t@[j] != ':',
        decreases n - i,
    {
        let c = t[i];
        proof {
            assert(t@.take(i + 1).drop_last() =~= t@.take(i as int));
        }
        if c == ':' {
            return Err(DecompressionError::InvalidFormat);
        }
        let ghost before = split(t@.take(i as int));
        if is_separator_char(c) {
            if is_kept_component(&current) {
                let cleaned = clean_component(&current);
                kept.push(cleaned);
            }
            current = Vec::new();
            proof {
                assert(before.push(Seq::<char>::empty()).drop_last() =~= before);
            }
        } else {
            current.push(c);
            proof {
                let after = before.drop_last().push(before.last().push(c));
                assert(after.drop_last() =~= before.drop_last());
            }
        }
        i += 1;
    }
    proof {
        assert(t@.take(n as int) =~= t@);
    }
    if is_kept_component(&current) {
        let cleaned = clean_component(&current);
        kept.push(cleaned);
    }
    if kept.len() == 0 {
        return Err(DecompressionError::InvalidFormat);
    }
    Ok(kept)
}

/// Joins `parts` with a slash between each two.
pub fn join_components(parts: &Vec<Vec<char>>) -> (r: Vec<char>)
    ensures
        r@ == join(component_views(parts@)),
{
    let n = parts.len();
    let mut out: Vec<char> = Vec::new();
    let mut k: usize = 0;
    let ghost views = component_views(parts@);
    while k < n
        invariant
            n == parts@.len(),
            views == component_views(parts@),
            k <= n,
            out@ == join(views.take(k as int)),
        decreases n - k,
    {
        if k > 0 {
            out.push('/');
        }
        let ghost mid = out@;
        let part = &parts[k];
        let m = part.len();
        let mut i: usize = 0;
        while i < m
            invariant
                m == part@.len(),
                i <= m,
                out@ == mid + part@.take(i as int),
            decreases m - i,
        {
            out.push(part[i]);
            i += 1;
        }
        proof {
            assert(views.take(k + 1).drop_last() =~= views.take(k as int));
        }
        k += 1;
    }
    assert(views.take(n as int) =~= views);
    out
}

/// The safe form of a path that came out of an archive, its components
/// joined by slashes, or `InvalidFormat` where the path is refused or
/// nothing of it is left.
pub fn sanitize_path(path: &str) -> (r: Result<String, DecompressionError>)
    ensures
        match r {
            Ok(safe) => sanitized(path@) == Some(safe@),
            Err(e) => e is InvalidFormat && sanitized(path@) is None,
        },
{
    match sanitize_components(path) {
        Ok(parts) => {
            let joined = join_components(&parts);
            Ok(string_of(joined.as_slice()))
        },
        Err(e) => Err(e),
    }
}
} // verus!
