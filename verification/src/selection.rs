//! Backup directory selections: normalizing one relative directory and
//! reducing a list of selections to its sorted, non-nested canonical form.

use vstd::prelude::*;

use crate::error::ErrorKind;
use crate::text::{
    chars_equal, chars_less, chars_lt, chars_of, copy_range, count_char, count_of,
    is_ascii_letter, lemma_chars_lt_asymmetric, lemma_chars_lt_irreflexive,
    lemma_chars_lt_total, lemma_chars_lt_transitive, string_from_chars, trim_chars, trim_white,
};

verus! {

/// `s` with every backslash turned into a forward slash.
pub open spec fn backslash_to_slash(s: Seq<char>) -> Seq<char> {
    Seq::new(s.len(), |i: int| if s[i] == '\\' { '/' } else { s[i] })
}

/// The pieces of `s` between forward slashes (`str::split('/')`): never empty.
pub open spec fn split_slash(s: Seq<char>) -> Seq<Seq<char>>
    decreases s.len(),
{
    if s.len() == 0 {
        seq![Seq::<char>::empty()]
    } else {
        let p = split_slash(s.drop_last());
        if s.last() == '/' {
            p.push(Seq::<char>::empty())
        } else {
            p.update(p.len() - 1, p.last().push(s.last()))
        }
    }
}

/// A piece that names a directory: neither empty nor `.`.
pub open spec fn is_named_part(p: Seq<char>) -> bool {
    p.len() > 0 && p != seq!['.']
}

/// The named pieces of `ps`, in order.
pub open spec fn named_parts(ps: Seq<Seq<char>>) -> Seq<Seq<char>>
    decreases ps.len(),
{
    if ps.len() == 0 {
        Seq::<Seq<char>>::empty()
    } else {
        let r = named_parts(ps.drop_last());
        if is_named_part(ps.last()) {
            r.push(ps.last())
        } else {
            r
        }
    }
}

/// The pieces of `ps` joined with forward slashes.
pub open spec fn join_slash(ps: Seq<Seq<char>>) -> Seq<char>
    decreases ps.len(),
{
    if ps.len() == 0 {
        Seq::<char>::empty()
    } else if ps.len() == 1 {
        ps[0]
    } else {
        join_slash(ps.drop_last()) + seq!['/'] + ps.last()
    }
}

/// Whether the slash-separated path `n` would leave the instance directory:
/// it starts at a root, names a drive, or climbs with `..`.
pub open spec fn leaves_instance(n: Seq<char>) -> bool {
    ||| (n.len() > 0 && n[0] == '/')
    ||| (n.len() >= 2 && is_ascii_letter(n[0]) && n[1] == ':')
    ||| split_slash(n).contains(seq!['.', '.'])
}

/// Message for an empty selection.
pub open spec fn empty_directory_message() -> Seq<char> {
    "Backup directory must be a non-empty relative path"@
}

/// Message prefix for a selection outside the instance.
pub open spec fn outside_directory_message() -> Seq<char> {
    "Backup directory must stay inside the instance: "@
}

/// Message for a selection that names the instance root.
pub open spec fn root_directory_message() -> Seq<char> {
    "Backup directory must not resolve to the instance root"@
}

/// Message for an empty list of selections.
pub open spec fn no_selection_message() -> Seq<char> {
    "Select at least one directory to back up"@
}

/// The outcome of normalizing one selection: the canonical relative
/// directory, or the message of the input error.
pub open spec fn directory_outcome(path: Seq<char>) -> Result<Seq<char>, Seq<char>> {
    let n = backslash_to_slash(trim_white(path));
    if n.len() == 0 || n == seq!['.'] {
        Err(empty_directory_message())
    } else if leaves_instance(n) {
        Err(outside_directory_message() + n)
    } else if named_parts(split_slash(n)).len() == 0 {
        Err(root_directory_message())
    } else {
        Ok(join_slash(named_parts(split_slash(n))))
    }
}

pub proof fn lemma_split_slash_nonempty(s: Seq<char>)
    ensures
        split_slash(s).len() >= 1,
    decreases s.len(),
{
    if s.len() > 0 {
        lemma_split_slash_nonempty(s.drop_last());
    }
}

/// An input error whose message is `prefix` followed by `detail`.
fn input_error_with(prefix: &str, detail: &Vec<char>) -> (e: ErrorKind)
    ensures
        e matches ErrorKind::InputError(m) && m@ == prefix@ + detail@,
{
    let mut chars = chars_of(prefix);
    let mut rest = copy_range(detail, 0, detail.len());
    assert(detail@.subrange(0, detail@.len() as int) =~= detail@);
    chars.append(&mut rest);
    ErrorKind::InputError(string_from_chars(&chars))
}

/// Appends the named piece `part` to the joined pieces in `out`.
fn push_part(out: &mut Vec<char>, count: usize, part: &Vec<char>, Ghost(ps): Ghost<Seq<Seq<char>>>)
    requires
        old(out)@ == join_slash(ps),
        count == ps.len(),
        count < usize::MAX,
    ensures
        final(out)@ == join_slash(ps.push(part@)),
{
    assert(ps.push(part@).drop_last() =~= ps);
    if count > 0 {
        out.push('/');
    }
    let mut piece = copy_range(part, 0, part.len());
    assert(part@.subrange(0, part@.len() as int) =~= part@);
    out.append(&mut piece);
    if count == 0 {
        assert(join_slash(ps) =~= Seq::<char>::empty());
        assert(out@ =~= part@);
    }
}

/// Normalizes a selected backup directory, given relative to the instance
/// root: trims it, turns backslashes into slashes, rejects empty paths and
/// paths that leave the instance, and drops empty and `.` pieces.
pub fn normalize_relative_directory(path: &str) -> (r: Result<String, ErrorKind>)
    ensures
        match r {
            Ok(s) => directory_outcome(path@) == Ok::<Seq<char>, Seq<char>>(s@),
            Err(ErrorKind::InputError(m)) => directory_outcome(path@) == Err::<Seq<char>, Seq<
                char,
            >>(m@),
            Err(_) => false,
        },
{
    let raw = chars_of(path);
    let trimmed = trim_chars(&raw);
    let mut n: Vec<char> = Vec::new();
    let mut i: usize = 0;
    while i < trimmed.len()
        invariant
            i <= trimmed.len(),
            n@ == backslash_to_slash(trimmed@.take(i as int)),
        decreases trimmed.len() - i,
    {
        let c = trimmed[i];
        n.push(if c == '\\' { '/' } else { c });
        assert(n@ =~= backslash_to_slash(trimmed@.take(i + 1)));
        i += 1;
    }
    assert(trimmed@.take(i as int) =~= trimmed@);
    let ghost ns = n@;
    assert(ns == backslash_to_slash(trim_white(path@)));
    if n.len() == 0 || (n.len() == 1 && n[0] == '.') {
        proof {
            if n.len() == 1 {
                assert(ns =~= seq!['.']);
            }
        }
        return Err(crate::error::input_error("Backup directory must be a non-empty relative path"));
    }
    // Walk the pieces between slashes.

    let mut cur: Vec<char> = Vec::new();
    let mut out: Vec<char> = Vec::new();
    let mut count: usize = 0;
    let mut climbs = false;
    let mut k: usize = 0;
    proof {
        lemma_split_slash_nonempty(ns.take(0));
        assert(split_slash(ns.take(0)).drop_last() =~= Seq::<Seq<char>>::empty());
        assert(cur@ =~= split_slash(ns.take(0)).last());
    }
    while k < n.len()
        invariant
            k <= n.len(),
            ns == n@,
            split_slash(ns.take(k as int)).len() >= 1,
            cur@ == split_slash(ns.take(k as int)).last(),
            climbs == split_slash(ns.take(k as int)).drop_last().contains(seq!['.', '.']),
            out@ == join_slash(named_parts(split_slash(ns.take(k as int)).drop_last())),
            count == named_parts(split_slash(ns.take(k as int)).drop_last()).len(),
            count + cur@.len() <= k,
        decreases n.len() - k,
    {
        let c = n[k];
        let ghost before = split_slash(ns.take(k as int));
        assert(ns.take(k + 1).drop_last() =~= ns.take(k as int));
        assert(ns.take(k + 1).last() == c);
        if c == '/' {
            assert(split_slash(ns.take(k + 1)) == before.push(Seq::<char>::empty()));
            assert(before.push(Seq::<char>::empty()).drop_last() =~= before);
            assert(before =~= before.drop_last().push(before.last()));
            let named = cur.len() > 0 && !(cur.len() == 1 && cur[0] == '.');
            proof {
                if cur@ == seq!['.'] {
                    assert(cur@.len() == 1 && cur@[0] == '.');
                }
                if cur.len() == 1 && cur[0] == '.' {
                    assert(cur@ =~= seq!['.']);
                }
                assert(named == is_named_part(cur@));
            }
            let is_climb = cur.len() == 2 && cur[0] == '.' && cur[1] == '.';
            proof {
                if is_climb {
                    assert(cur@ =~= seq!['.', '.']);
                }
                if cur@ == seq!['.', '.'] {
                    assert(cur@.len() == 2);
                }
                assert(is_climb == (cur@ == seq!['.', '.']));
                if is_climb {
                    assert(before[before.len() - 1] == cur@);
                } else if climbs {
                    let w = choose|w: int|
                        0 <= w < before.drop_last().len() && before.drop_last()[w] == seq![
                            '.',
                            '.',
                        ];
                    assert(before[w] == seq!['.', '.']);
                } else {
                    assert forall|w: int| 0 <= w < before.len() implies before[w] != seq![
                        '.',
                        '.',
                    ] by {
                        if w < before.len() - 1 {
                            assert(before.drop_last()[w] == before[w]);
                        }
                    }
                }
            }
            climbs = climbs || is_climb;
            if named {
                let ghost ps = named_parts(before.drop_last());
                push_part(&mut out, count, &cur, Ghost(ps));
                count += 1;
            }
            cur = Vec::new();
        } else {
            proof {
                lemma_split_slash_nonempty(ns.take(k as int));
                assert(split_slash(ns.take(k + 1)) == before.update(
                    before.len() - 1,
                    before.last().push(c),
                ));
                assert(before.update(before.len() - 1, before.last().push(c)).drop_last()
                    =~= before.drop_last());
            }
            cur.push(c);
        }
        k += 1;
    }
    assert(ns.take(k as int) =~= ns);
    let ghost pieces = split_slash(ns);
    assert(pieces =~= pieces.drop_last().push(pieces.last()));
    let named = cur.len() > 0 && !(cur.len() == 1 && cur[0] == '.');
    proof {
        if cur.len() == 1 && cur[0] == '.' {
            assert(cur@ =~= seq!['.']);
        }
        if cur@ == seq!['.'] {
            assert(cur@.len() == 1);
        }
        assert(named == is_named_part(cur@));
    }
    let is_climb = cur.len() == 2 && cur[0] == '.' && cur[1] == '.';
    proof {
        if is_climb {
            assert(cur@ =~= seq!['.', '.']);
        }
        if cur@ == seq!['.', '.'] {
            assert(cur@.len() == 2);
        }
        if is_climb {
            assert(pieces[pieces.len() - 1] == cur@);
        } else if climbs {
            let w = choose|w: int|
                0 <= w < pieces.drop_last().len() && pieces.drop_last()[w] == seq!['.', '.'];
            assert(pieces[w] == seq!['.', '.']);
        } else {
            assert forall|w: int| 0 <= w < pieces.len() implies pieces[w] != seq!['.', '.'] by {
                if w < pieces.len() - 1 {
                    assert(pieces.drop_last()[w] == pieces[w]);
                }
            }
        }
    }
    let drive = n.len() >= 2 && ((n[0] >= 'a' && n[0] <= 'z') || (n[0] >= 'A' && n[0] <= 'Z'))
        && n[1] == ':';
    if n[0] == '/' || drive || climbs || is_climb {
        return Err(input_error_with("Backup directory must stay inside the instance: ", &n));
    }
    if named {
        let ghost ps = named_parts(pieces.drop_last());
        push_part(&mut out, count, &cur, Ghost(ps));
        count += 1;
    }
    if count == 0 {
        return Err(
            crate::error::input_error("Backup directory must not resolve to the instance root"),
        );
    }
    Ok(string_from_chars(&out))
}


/// The character sequences of a list of strings.
pub open spec fn string_views(v: Seq<String>) -> Seq<Seq<char>> {
    Seq::new(v.len(), |i: int| v[i]@)
}

/// The character sequences of a list of character vectors.
pub open spec fn char_views(v: Seq<Vec<char>>) -> Seq<Seq<char>> {
    Seq::new(v.len(), |i: int| v[i]@)
}

/// The message of the first selection, in order, that normalizing rejects.
pub open spec fn first_rejection(paths: Seq<Seq<char>>) -> Option<Seq<char>>
    decreases paths.len(),
{
    if paths.len() == 0 {
        None
    } else {
        match directory_outcome(paths[0]) {
            Err(m) => Some(m),
            Ok(_) => first_rejection(paths.drop_first()),
        }
    }
}

/// The normalized form of each selection (meaningful when none is rejected).
pub open spec fn normalized_selections(paths: Seq<Seq<char>>) -> Seq<Seq<char>> {
    Seq::new(
        paths.len(),
        |i: int|
            match directory_outcome(paths[i]) {
                Ok(n) => n,
                Err(_) => Seq::<char>::empty(),
            },
    )
}

/// Whether `child` lies strictly inside the directory `parent`.
pub open spec fn nested_under(parent: Seq<char>, child: Seq<char>) -> bool {
    &&& parent.len() < child.len()
    &&& child.take(parent.len() as int) == parent
    &&& child[parent.len() as int] == '/'
}

/// Selection order: fewer slashes first, then code point order.
pub open spec fn selection_before(a: Seq<char>, b: Seq<char>) -> bool {
    ||| count_char(a, '/') < count_char(b, '/')
    ||| (count_char(a, '/') == count_char(b, '/') && chars_lt(a, b))
}

/// `x` is one of `ns` and no other of `ns` contains it.
pub open spec fn is_top_selection(ns: Seq<Seq<char>>, x: Seq<char>) -> bool {
    &&& ns.contains(x)
    &&& !(exists|q: Seq<char>| ns.contains(q) && nested_under(q, x))
}

/// Strictly increasing in selection order.
pub open spec fn sorted_selections(r: Seq<Seq<char>>) -> bool {
    forall|i: int, j: int| 0 <= i < j < r.len() ==> selection_before(r[i], r[j])
}

pub proof fn lemma_selection_before_irreflexive(a: Seq<char>)
    ensures
        !selection_before(a, a),
{
    lemma_chars_lt_irreflexive(a);
}

pub proof fn lemma_selection_before_transitive(a: Seq<char>, b: Seq<char>, c: Seq<char>)
    requires
        selection_before(a, b),
        selection_before(b, c),
    ensures
        selection_before(a, c),
{
    if count_char(a, '/') == count_char(b, '/') && count_char(b, '/') == count_char(c, '/') {
        lemma_chars_lt_transitive(a, b, c);
    }
}

pub proof fn lemma_selection_before_total(a: Seq<char>, b: Seq<char>)
    requires
        a != b,
    ensures
        selection_before(a, b) || selection_before(b, a),
{
    lemma_chars_lt_total(a, b);
}

pub proof fn lemma_selection_before_asymmetric(a: Seq<char>, b: Seq<char>)
    ensures
        !(selection_before(a, b) && selection_before(b, a)),
{
    lemma_chars_lt_asymmetric(a, b);
}

/// Every selection of `ns` lies in some top selection of `ns` (or is one).
pub proof fn lemma_top_selection_exists(ns: Seq<Seq<char>>, x: Seq<char>)
    requires
        ns.contains(x),
    ensures
        exists|y: Seq<char>| is_top_selection(ns, y),
    decreases x.len(),
{
    if !is_top_selection(ns, x) {
        let q = choose|q: Seq<char>| ns.contains(q) && nested_under(q, x);
        lemma_top_selection_exists(ns, q);
    }
}

/// Whether `child` lies strictly inside the directory `parent`.
fn is_nested_under(parent: &Vec<char>, child: &Vec<char>) -> (r: bool)
    ensures
        r == nested_under(parent@, child@),
{
    if parent.len() >= child.len() {
        return false;
    }
    let mut i: usize = 0;
    while i < parent.len()
        invariant
            i <= parent.len() < child.len(),
            child@.take(i as int) == parent@.take(i as int),
        decreases parent.len() - i,
    {
        if parent[i] != child[i] {
            assert(child@.take(parent.len() as int)[i as int] != parent@[i as int]);
            return false;
        }
        assert(child@.take(i + 1) =~= child@.take(i as int).push(child@[i as int]));
        assert(parent@.take(i + 1) =~= parent@.take(i as int).push(parent@[i as int]));
        i += 1;
    }
    assert(parent@.take(i as int) =~= parent@);
    child[parent.len()] == '/'
}

/// Whether some entry of `all` contains `x`.
fn has_enclosing_selection(all: &Vec<Vec<char>>, x: &Vec<char>) -> (r: bool)
    ensures
        r == (exists|q: Seq<char>| char_views(all@).contains(q) && nested_under(q, x@)),
{
    let mut i: usize = 0;
    while i < all.len()
        invariant
            i <= all.len(),
            forall|j: int| 0 <= j < i ==> !nested_under(#[trigger] all@[j]@, x@),
        decreases all.len() - i,
    {
        if is_nested_under(&all[i], x) {
            assert(char_views(all@)[i as int] == all@[i as int]@);
            return true;
        }
        i += 1;
    }
    assert forall|q: Seq<char>|
        char_views(all@).contains(q) implies !nested_under(q, x@) by {
        let j = choose|j: int| 0 <= j < char_views(all@).len() && char_views(all@)[j] == q;
        assert(all@[j]@ == q);
    }
    false
}

/// Whether `x` is one of `all`.
fn contains_selection(all: &Vec<Vec<char>>, x: &Vec<char>) -> (r: bool)
    ensures
        r == char_views(all@).contains(x@),
{
    let mut i: usize = 0;
    while i < all.len()
        invariant
            i <= all.len(),
            forall|j: int| 0 <= j < i ==> #[trigger] all@[j]@ != x@,
        decreases all.len() - i,
    {
        if chars_equal(&all[i], x) {
            assert(char_views(all@)[i as int] == x@);
            return true;
        }
        i += 1;
    }
    assert forall|j: int| 0 <= j < char_views(all@).len() implies char_views(all@)[j] != x@ by {
        assert(char_views(all@)[j] == all@[j]@);
    }
    false
}

/// Whether `a` comes before `b` in selection order.
fn selection_less(a: &Vec<char>, b: &Vec<char>) -> (r: bool)
    ensures
        r == selection_before(a@, b@),
{
    let ca = count_of(a, '/');
    let cb = count_of(b, '/');
    ca < cb || (ca == cb && chars_less(a, b))
}

/// Inserts `x` into the sorted list `sorted`, keeping it sorted.
fn insert_selection(sorted: &mut Vec<Vec<char>>, x: Vec<char>)
    requires
        sorted_selections(char_views(old(sorted)@)),
        !char_views(old(sorted)@).contains(x@),
    ensures
        sorted_selections(char_views(final(sorted)@)),
        forall|y: Seq<char>|
            char_views(final(sorted)@).contains(y) <==> (char_views(old(sorted)@).contains(y)
                || y == x@),
{
    let ghost old_views = char_views(sorted@);
    let mut k: usize = 0;
    while k < sorted.len() && selection_less(&sorted[k], &x)
        invariant
            k <= sorted.len(),
            sorted@ == old(sorted)@,
            old_views == char_views(sorted@),
            forall|j: int| 0 <= j < k ==> selection_before(#[trigger] old_views[j], x@),
        decreases sorted.len() - k,
    {
        k += 1;
    }
    proof {
        if k < sorted.len() {
            assert(old_views[k as int] == sorted@[k as int]@);
            assert(old_views[k as int] != x@);
            lemma_selection_before_total(old_views[k as int], x@);
        }
    }
    let ghost xv = x@;
    sorted.insert(k, x);
    let ghost new_views = char_views(sorted@);
    assert(new_views =~= old_views.insert(k as int, xv));
    assert forall|i: int, j: int| 0 <= i < j < new_views.len() implies selection_before(
        new_views[i],
        new_views[j],
    ) by {
        if j < k {
        } else if j == k {
        } else if i < k {
            assert(new_views[j] == old_views[j - 1]);
            if k < old_views.len() {
                if j - 1 > k {
                    lemma_selection_before_transitive(xv, old_views[k as int], old_views[j - 1]);
                }
                lemma_selection_before_transitive(old_views[i], xv, old_views[j - 1]);
            }
        } else if i == k {
            if j - 1 > k {
                lemma_selection_before_transitive(xv, old_views[k as int], old_views[j - 1]);
            }
        } else {
        }
    }
    assert forall|y: Seq<char>| new_views.contains(y) <==> (old_views.contains(y) || y == xv) by {
        if new_views.contains(y) {
            let j = choose|j: int| 0 <= j < new_views.len() && new_views[j] == y;
            if j < k {
                assert(old_views[j] == y);
            } else if j > k {
                assert(old_views[j - 1] == y);
            }
        }
        if old_views.contains(y) {
            let j = choose|j: int| 0 <= j < old_views.len() && old_views[j] == y;
            if j < k {
                assert(new_views[j] == y);
            } else {
                assert(new_views[j + 1] == y);
            }
        }
        if y == xv {
            assert(new_views[k as int] == y);
        }
    }
}

/// Reduces selected backup directories to their canonical form: each one
/// normalized, directories that lie inside another selected directory
/// dropped, duplicates removed, ordered by depth and then by name.
pub fn canonicalize_selections(paths: Vec<String>) -> (r: Result<Vec<String>, ErrorKind>)
    ensures
        match first_rejection(string_views(paths@)) {
            Some(m) => r matches Err(ErrorKind::InputError(e)) && e@ == m,
            None => {
                let ns = normalized_selections(string_views(paths@));
                if ns.len() == 0 {
                    r matches Err(ErrorKind::InputError(e)) && e@ == no_selection_message()
                } else {
                    r matches Ok(v) && sorted_selections(string_views(v@)) && forall|x: Seq<char>|
                        string_views(v@).contains(x) <==> is_top_selection(ns, x)
                }
            },
        },
{
    let ghost sv = string_views(paths@);
    let mut ncs: Vec<Vec<char>> = Vec::new();
    let mut i: usize = 0;
    assert(sv.skip(0) =~= sv);
    while i < paths.len()
        invariant
            i <= paths.len(),
            sv == string_views(paths@),
            first_rejection(sv) == first_rejection(sv.skip(i as int)),
            forall|j: int| 0 <= j < i ==> directory_outcome(sv[j]) is Ok,
            ncs.len() == i,
            char_views(ncs@) =~= normalized_selections(sv).take(i as int),
        decreases paths.len() - i,
    {
        assert(sv.skip(i as int)[0] == sv[i as int]);
        match normalize_relative_directory(paths[i].as_str()) {
            Ok(s) => {
                let ghost before = ncs@;
                let cs = chars_of(s.as_str());
                ncs.push(cs);
                assert(sv.skip(i as int).drop_first() =~= sv.skip(i + 1));
                assert(sv[i as int] == paths@[i as int]@);
                assert(normalized_selections(sv)[i as int] == s@);
                assert forall|j: int| 0 <= j < i + 1 implies char_views(ncs@)[j]
                    == normalized_selections(sv).take(i + 1)[j] by {
                    if j < i {
                        assert(ncs@[j] == before[j]);
                        assert(char_views(before)[j] == normalized_selections(sv).take(
                            i as int,
                        )[j]);
                    }
                }
            },
            Err(e) => {
                assert(sv[i as int] == paths@[i as int]@);
                return Err(e);
            },
        }
        i += 1;
    }
    let ghost ns = normalized_selections(sv);
    assert(sv.skip(i as int).len() == 0);
    assert(ns.take(i as int) =~= ns);
    assert(char_views(ncs@) == ns);
    let mut result: Vec<Vec<char>> = Vec::new();
    let mut k: usize = 0;
    while k < ncs.len()
        invariant
            k <= ncs.len(),
            char_views(ncs@) == ns,
            sorted_selections(char_views(result@)),
            forall|y: Seq<char>|
                #[trigger] char_views(result@).contains(y) <==> (exists|j: int|
                    0 <= j < k && ns[j] == y) && is_top_selection(ns, y),
        decreases ncs.len() - k,
    {
        let enclosed = has_enclosing_selection(&ncs, &ncs[k]);
        let seen = contains_selection(&result, &ncs[k]);
        let ghost x = ncs@[k as int]@;
        assert(ns[k as int] == x);
        assert(ns.contains(x));
        let ghost old_result = char_views(result@);
        assert(is_top_selection(ns, x) == !enclosed);
        if !enclosed && !seen {
            let copy = copy_range(&ncs[k], 0, ncs[k].len());
            assert(copy@ =~= x);
            insert_selection(&mut result, copy);
        }
        assert forall|y: Seq<char>|
            char_views(result@).contains(y) <==> (exists|j: int| 0 <= j < k + 1 && ns[j] == y)
                && is_top_selection(ns, y) by {
            let before_k = (exists|j: int| 0 <= j < k && ns[j] == y);
            let upto_k = (exists|j: int| 0 <= j < k + 1 && ns[j] == y);
            if upto_k {
                let j = choose|j: int| 0 <= j < k + 1 && ns[j] == y;
                if j < k {
                    assert(before_k);
                } else {
                    assert(y == x);
                }
            }
            if before_k {
                let j = choose|j: int| 0 <= j < k && ns[j] == y;
                assert(upto_k);
            }
            if y == x {
                assert(ns[k as int] == y);
                assert(upto_k);
            }
            assert(upto_k <==> (before_k || y == x));
            assert(old_result.contains(y) <==> before_k && is_top_selection(ns, y));
        }
        k += 1;
    }
    let mut out: Vec<String> = Vec::new();
    let mut m: usize = 0;
    while m < result.len()
        invariant
            m <= result.len(),
            out.len() == m,
            string_views(out@) =~= char_views(result@).take(m as int),
        decreases result.len() - m,
    {
        let ghost before = out@;
        let s = string_from_chars(&result[m]);
        out.push(s);
        assert forall|j: int| 0 <= j < m + 1 implies string_views(out@)[j] == char_views(
            result@,
        ).take(m + 1)[j] by {
            if j < m {
                assert(out@[j] == before[j]);
                assert(string_views(before)[j] == char_views(result@).take(m as int)[j]);
            }
        }
        m += 1;
    }
    assert(char_views(result@).take(m as int) =~= char_views(result@));
    assert(string_views(out@) == char_views(result@));
    assert forall|y: Seq<char>| string_views(out@).contains(y) <==> is_top_selection(ns, y) by {
        if is_top_selection(ns, y) {
            let j = choose|j: int| 0 <= j < ns.len() && ns[j] == y;
            assert(exists|j: int| 0 <= j < k && ns[j] == y);
        }
        assert(char_views(result@).contains(y) <==> (exists|j: int| 0 <= j < k && ns[j] == y)
            && is_top_selection(ns, y));
    }
    assert(first_rejection(sv.skip(i as int)) == None::<Seq<char>>);
    if out.len() == 0 {
        proof {
            if ns.len() > 0 {
                assert(ns.contains(ns[0]));
                lemma_top_selection_exists(ns, ns[0]);
                let y = choose|y: Seq<char>| is_top_selection(ns, y);
                let j = choose|j: int| 0 <= j < ns.len() && ns[j] == y;
                assert(char_views(result@).contains(y));
                assert(char_views(result@).len() > 0);
            }
        }
        return Err(crate::error::input_error("Select at least one directory to back up"));
    }
    assert(first_rejection(sv) == None::<Seq<char>>);
    assert(sorted_selections(string_views(out@)));
    assert(ns.len() > 0) by {
        let y = char_views(result@)[0];
        assert(char_views(result@).contains(y));
    }
    Ok(out)
}

} // verus!

verus! {

/// No character of `s` is `c`.
pub open spec fn lacks_char(s: Seq<char>, c: char) -> bool {
    forall|i: int| 0 <= i < s.len() ==> s[i] != c
}

/// Every piece of `ps` is free of slashes and made of characters of `s`.
spec fn pieces_drawn_from(s: Seq<char>, ps: Seq<Seq<char>>) -> bool {
    forall|k: int, j: int|
        0 <= k < ps.len() && 0 <= j < ps[k].len() ==> #[trigger] ps[k][j] != '/' && s.contains(
            ps[k][j],
        )
}

proof fn lemma_split_slash_pieces(s: Seq<char>)
    ensures
        pieces_drawn_from(s, split_slash(s)),
        split_slash(s).len() >= 1,
    decreases s.len(),
{
    if s.len() > 0 {
        let d = s.drop_last();
        lemma_split_slash_pieces(d);
        let p = split_slash(d);
        let q = split_slash(s);
        assert forall|k: int, j: int| 0 <= k < q.len() && 0 <= j < q[k].len() implies #[trigger] q[k][j]
            != '/' && s.contains(q[k][j]) by {
            if s.last() == '/' {
                assert(q == p.push(Seq::<char>::empty()));
                assert(k < p.len());
                assert(q[k][j] == p[k][j]);
                let w = choose|w: int| 0 <= w < d.len() && d[w] == p[k][j];
                assert(s[w] == d[w]);
            } else {
                assert(q == p.update(p.len() - 1, p.last().push(s.last())));
                if k < p.len() - 1 || j < p[k].len() {
                    if k == p.len() - 1 {
                        assert(q[k] == p.last().push(s.last()));
                    }
                    assert(q[k][j] == p[k][j]);
                    let w = choose|w: int| 0 <= w < d.len() && d[w] == p[k][j];
                    assert(s[w] == d[w]);
                } else {
                    assert(q[k] == p.last().push(s.last()));
                    assert(q[k][j] == s.last());
                    assert(s[s.len() - 1] == s.last());
                }
            }
        }
    }
}

/// Appending slash-free characters extends the last piece.
proof fn lemma_split_slash_extend(x: Seq<char>, b: Seq<char>)
    requires
        lacks_char(b, '/'),
    ensures
        split_slash(x).len() >= 1,
        split_slash(x + b) == split_slash(x).update(
            split_slash(x).len() - 1,
            split_slash(x).last() + b,
        ),
    decreases b.len(),
{
    lemma_split_slash_nonempty(x);
    let q = split_slash(x);
    if b.len() == 0 {
        assert(x + b =~= x);
        assert(q.last() + b =~= q.last());
        assert(q.update(q.len() - 1, q.last()) =~= q);
    } else {
        let bd = b.drop_last();
        lemma_split_slash_extend(x, bd);
        assert((x + b).drop_last() =~= x + bd);
        assert((x + b).last() == b[b.len() - 1]);
        let p = split_slash(x + bd);
        assert(split_slash(x + b) == p.update(p.len() - 1, p.last().push(b.last())));
        assert(q.last() + bd + seq![b.last()] =~= q.last() + b);
        assert(p.len() == q.len());
        assert(p.last() == q.last() + bd);
        assert(p.last().push(b.last()) =~= q.last() + b);
        assert(p.update(p.len() - 1, p.last().push(b.last())) =~= q.update(
            q.len() - 1,
            q.last() + b,
        ));
    }
}

/// Splitting joined slash-free pieces gives the pieces back.
proof fn lemma_split_join(ps: Seq<Seq<char>>)
    requires
        ps.len() >= 1,
        forall|k: int| 0 <= k < ps.len() ==> lacks_char(#[trigger] ps[k], '/'),
    ensures
        split_slash(join_slash(ps)) == ps,
    decreases ps.len(),
{
    if ps.len() == 1 {
        lemma_split_slash_extend(Seq::<char>::empty(), ps[0]);
        assert(Seq::<char>::empty() + ps[0] =~= ps[0]);
        assert(split_slash(Seq::<char>::empty()) == seq![Seq::<char>::empty()]);
        assert(seq![Seq::<char>::empty()].update(0, Seq::<char>::empty() + ps[0]) =~= ps);
    } else {
        let init = ps.drop_last();
        lemma_split_join(init);
        let y = join_slash(init);
        let ys = y + seq!['/'];
        assert(ys.drop_last() =~= y);
        assert(ys.last() == '/');
        assert(split_slash(ys) == init.push(Seq::<char>::empty()));
        lemma_split_slash_extend(ys, ps.last());
        assert(join_slash(ps) == ys + ps.last());
        assert(Seq::<char>::empty() + ps.last() =~= ps.last());
        assert(init.push(Seq::<char>::empty()).update(init.len() as int, ps.last()) =~= ps);
    }
}

/// Every piece that `named_parts` keeps is named and comes from `ps`.
proof fn lemma_named_parts_from(ps: Seq<Seq<char>>)
    ensures
        forall|i: int|
            0 <= i < named_parts(ps).len() ==> is_named_part(#[trigger] named_parts(ps)[i])
                && ps.contains(named_parts(ps)[i]),
    decreases ps.len(),
{
    if ps.len() > 0 {
        let d = ps.drop_last();
        lemma_named_parts_from(d);
        let r = named_parts(d);
        assert forall|i: int| 0 <= i < named_parts(ps).len() implies is_named_part(
            #[trigger] named_parts(ps)[i],
        ) && ps.contains(named_parts(ps)[i]) by {
            if i < r.len() {
                assert(named_parts(ps)[i] == r[i]);
                let w = choose|w: int| 0 <= w < d.len() && d[w] == r[i];
                assert(ps[w] == d[w]);
            } else {
                assert(named_parts(ps)[i] == ps.last());
                assert(ps[ps.len() - 1] == ps.last());
            }
        }
    }
}

/// Keeping the named pieces of named pieces changes nothing.
proof fn lemma_named_parts_all_named(ps: Seq<Seq<char>>)
    requires
        forall|i: int| 0 <= i < ps.len() ==> is_named_part(#[trigger] ps[i]),
    ensures
        named_parts(ps) == ps,
    decreases ps.len(),
{
    if ps.len() > 0 {
        lemma_named_parts_all_named(ps.drop_last());
        assert(ps.drop_last().push(ps.last()) =~= ps);
    }
}

/// Joined pieces start with the first character of the first piece and
/// lack every character that no piece has, but for the slash.
proof fn lemma_join_slash_chars(ps: Seq<Seq<char>>, c: char)
    requires
        ps.len() >= 1,
        ps[0].len() > 0,
        c != '/',
        forall|k: int| 0 <= k < ps.len() ==> lacks_char(#[trigger] ps[k], c),
    ensures
        join_slash(ps).len() >= ps[0].len(),
        join_slash(ps)[0] == ps[0][0],
        lacks_char(join_slash(ps), c),
    decreases ps.len(),
{
    if ps.len() > 1 {
        let init = ps.drop_last();
        assert(init[0] == ps[0]);
        lemma_join_slash_chars(init, c);
        let y = join_slash(init);
        let z = y + seq!['/'] + ps.last();
        assert(join_slash(ps) == z);
        assert(z[0] == y[0]);
        assert(lacks_char(ps[ps.len() - 1], c));
        assert forall|i: int| 0 <= i < z.len() implies z[i] != c by {
            if i < y.len() {
                assert(z[i] == y[i]);
            } else if i > y.len() {
                assert(z[i] == ps.last()[i - y.len() - 1]);
            }
        }
    }
}

/// Normalizing a normalized directory gives it back. The one exception is
/// a result that begins or ends with white space, or begins with a drive
/// letter and a colon: the second pass trims or refuses it.
pub proof fn law_normalize_is_idempotent(path: Seq<char>, n: Seq<char>)
    requires
        directory_outcome(path) == Ok::<Seq<char>, Seq<char>>(n),
        trim_white(n) == n,
        !(n.len() >= 2 && is_ascii_letter(n[0]) && n[1] == ':'),
    ensures
        directory_outcome(n) == Ok::<Seq<char>, Seq<char>>(n),
{
    let t = trim_white(path);
    let m = backslash_to_slash(t);
    assert(lacks_char(m, '\\'));
    let pieces = split_slash(m);
    lemma_split_slash_pieces(m);
    let ps = named_parts(pieces);
    lemma_named_parts_from(pieces);
    assert(n == join_slash(ps));
    assert(ps.len() >= 1);
    assert forall|k: int| 0 <= k < ps.len() implies lacks_char(#[trigger] ps[k], '/') && lacks_char(
        ps[k],
        '\\',
    ) && !(ps[k] =~= seq!['.', '.']) by {
        assert(is_named_part(ps[k]) && pieces.contains(ps[k]));
        let w = choose|w: int| 0 <= w < pieces.len() && pieces[w] == ps[k];
        assert forall|j: int| 0 <= j < ps[k].len() implies ps[k][j] != '/' && ps[k][j] != '\\' by {
            assert(pieces[w][j] != '/' && m.contains(pieces[w][j]));
        }
        assert(!leaves_instance(m));
        if ps[k] =~= seq!['.', '.'] {
            assert(pieces.contains(seq!['.', '.']));
        }
    }
    assert(is_named_part(ps[0]));
    lemma_join_slash_chars(ps, '\\');
    lemma_split_join(ps);
    assert(lacks_char(ps[0], '/'));
    assert(backslash_to_slash(trim_white(n)) =~= n);
    assert(n.len() > 0);
    if n =~= seq!['.'] {
        assert(split_slash(n) =~= seq![seq!['.']]);
        assert(ps[0] =~= seq!['.']);
    }
    assert(n[0] != '/');
    assert(!split_slash(n).contains(seq!['.', '.']));
    assert forall|i: int| 0 <= i < ps.len() implies is_named_part(#[trigger] ps[i]) by {}
    lemma_named_parts_all_named(ps);
}

} // verus!

verus! {

proof fn lemma_no_rejection_all_ok(paths: Seq<Seq<char>>)
    ensures
        first_rejection(paths) is None <==> forall|j: int|
            0 <= j < paths.len() ==> #[trigger] directory_outcome(paths[j]) is Ok,
    decreases paths.len(),
{
    if paths.len() > 0 {
        let rest = paths.drop_first();
        lemma_no_rejection_all_ok(rest);
        if forall|j: int| 0 <= j < paths.len() ==> #[trigger] directory_outcome(paths[j]) is Ok {
            assert forall|j: int| 0 <= j < rest.len() implies #[trigger] directory_outcome(
                rest[j],
            ) is Ok by {
                assert(rest[j] == paths[j + 1]);
            }
        }
        if first_rejection(paths) is None {
            assert(directory_outcome(paths[0]) is Ok);
            assert forall|j: int| 0 <= j < paths.len() implies #[trigger] directory_outcome(
                paths[j],
            ) is Ok by {
                if j > 0 {
                    assert(paths[j] == rest[j - 1]);
                }
            }
        }
    }
}

proof fn lemma_nested_under_transitive(a: Seq<char>, b: Seq<char>, c: Seq<char>)
    requires
        nested_under(a, b),
        nested_under(b, c),
    ensures
        nested_under(a, c),
{
    assert(c.take(a.len() as int) =~= c.take(b.len() as int).take(a.len() as int));
    assert(c[a.len() as int] == c.take(b.len() as int)[a.len() as int]);
}

/// Two lists, each strictly increasing in selection order, that hold the
/// same selections are the same list.
proof fn lemma_sorted_selections_unique(r1: Seq<Seq<char>>, r2: Seq<Seq<char>>)
    requires
        sorted_selections(r1),
        sorted_selections(r2),
        forall|x: Seq<char>| r1.contains(x) <==> r2.contains(x),
    ensures
        r1 == r2,
    decreases r1.len(),
{
    if r1.len() == 0 {
        if r2.len() > 0 {
            assert(r2.contains(r2[0]));
        }
        assert(r1 =~= r2);
    } else {
        assert(r1.contains(r1[0]));
        let j = choose|j: int| 0 <= j < r2.len() && r2[j] == r1[0];
        assert(r2.contains(r2[0]));
        let i = choose|i: int| 0 <= i < r1.len() && r1[i] == r2[0];
        if j > 0 {
            assert(selection_before(r2[0], r2[j]));
            if i > 0 {
                assert(selection_before(r1[0], r1[i]));
                lemma_selection_before_asymmetric(r1[0], r2[0]);
            } else {
                lemma_selection_before_irreflexive(r1[0]);
            }
        }
        assert(r1[0] == r2[0]);
        let t1 = r1.drop_first();
        let t2 = r2.drop_first();
        assert forall|x: Seq<char>| t1.contains(x) <==> t2.contains(x) by {
            if t1.contains(x) {
                let a = choose|a: int| 0 <= a < t1.len() && t1[a] == x;
                assert(r1[a + 1] == x);
                assert(r1.contains(x));
                let b = choose|b: int| 0 <= b < r2.len() && r2[b] == x;
                if b == 0 {
                    assert(selection_before(r1[0], r1[a + 1]));
                    lemma_selection_before_irreflexive(x);
                }
                assert(t2[b - 1] == x);
            }
            if t2.contains(x) {
                let a = choose|a: int| 0 <= a < t2.len() && t2[a] == x;
                assert(r2[a + 1] == x);
                assert(r2.contains(x));
                let b = choose|b: int| 0 <= b < r1.len() && r1[b] == x;
                if b == 0 {
                    assert(selection_before(r2[0], r2[a + 1]));
                    lemma_selection_before_irreflexive(x);
                }
                assert(t1[b - 1] == x);
            }
        }
        lemma_sorted_selections_unique(t1, t2);
        assert(r1.len() == r2.len());
        assert forall|k: int| 0 <= k < r1.len() implies r1[k] == r2[k] by {
            if k > 0 {
                assert(r1[k] == t1[k - 1]);
                assert(r2[k] == t2[k - 1]);
            }
        }
        assert(r1 =~= r2);
    }
}

/// The canonical form of a selection depends only on which directories are
/// selected: neither their order nor repeated selections change it.
pub proof fn law_canonical_form_depends_on_selected_set(
    ns1: Seq<Seq<char>>,
    ns2: Seq<Seq<char>>,
    r1: Seq<Seq<char>>,
    r2: Seq<Seq<char>>,
)
    requires
        forall|x: Seq<char>| ns1.contains(x) <==> ns2.contains(x),
        sorted_selections(r1),
        forall|x: Seq<char>| r1.contains(x) <==> is_top_selection(ns1, x),
        sorted_selections(r2),
        forall|x: Seq<char>| r2.contains(x) <==> is_top_selection(ns2, x),
    ensures
        r1 == r2,
{
    assert forall|x: Seq<char>| r1.contains(x) <==> r2.contains(x) by {
        assert(is_top_selection(ns1, x) == is_top_selection(ns2, x));
    }
    lemma_sorted_selections_unique(r1, r2);
}

/// Every selected directory is one of the canonical directories or lies
/// inside one, and no canonical directory lies inside another.
pub proof fn law_canonical_selections_cover_without_nesting(
    ns: Seq<Seq<char>>,
    r: Seq<Seq<char>>,
    x: Seq<char>,
)
    requires
        forall|y: Seq<char>| r.contains(y) <==> is_top_selection(ns, y),
        ns.contains(x),
    ensures
        exists|y: Seq<char>| r.contains(y) && (y == x || nested_under(y, x)),
        forall|i: int, j: int| 0 <= i < r.len() && 0 <= j < r.len() ==> !nested_under(r[i], r[j]),
    decreases x.len(),
{
    if is_top_selection(ns, x) {
        assert(r.contains(x));
    } else {
        let q = choose|q: Seq<char>| ns.contains(q) && nested_under(q, x);
        law_canonical_selections_cover_without_nesting(ns, r, q);
        let y = choose|y: Seq<char>| r.contains(y) && (y == q || nested_under(y, q));
        if y != q {
            lemma_nested_under_transitive(y, q, x);
        }
        assert(r.contains(y) && nested_under(y, x));
    }
    assert forall|i: int, j: int| 0 <= i < r.len() && 0 <= j < r.len() implies !nested_under(
        r[i],
        r[j],
    ) by {
        assert(r.contains(r[i]) && r.contains(r[j]));
        assert(is_top_selection(ns, r[j]));
        assert(ns.contains(r[i]));
    }
}

/// Canonicalizing the canonical form again gives it back, unless one of
/// its directories begins or ends with white space or begins with a drive
/// letter and a colon (see `law_normalize_is_idempotent`).
pub proof fn law_canonical_selections_are_stable(
    paths: Seq<Seq<char>>,
    r: Seq<Seq<char>>,
    again: Seq<Seq<char>>,
)
    requires
        first_rejection(paths) is None,
        normalized_selections(paths).len() > 0,
        sorted_selections(r),
        forall|x: Seq<char>| r.contains(x) <==> is_top_selection(normalized_selections(paths), x),
        forall|i: int|
            0 <= i < r.len() ==> trim_white(#[trigger] r[i]) == r[i] && !(r[i].len() >= 2
                && is_ascii_letter(r[i][0]) && r[i][1] == ':'),
        sorted_selections(again),
        forall|x: Seq<char>| again.contains(x) <==> is_top_selection(normalized_selections(r), x),
    ensures
        first_rejection(r) is None,
        normalized_selections(r).len() > 0,
        again == r,
{
    let ns = normalized_selections(paths);
    lemma_no_rejection_all_ok(paths);
    assert forall|i: int| 0 <= i < r.len() implies #[trigger] directory_outcome(r[i]) == Ok::<
        Seq<char>,
        Seq<char>,
    >(r[i]) by {
        assert(r.contains(r[i]));
        assert(ns.contains(r[i]));
        let j = choose|j: int| 0 <= j < ns.len() && ns[j] == r[i];
        assert(directory_outcome(paths[j]) is Ok);
        law_normalize_is_idempotent(paths[j], r[i]);
    }
    lemma_no_rejection_all_ok(r);
    let nr = normalized_selections(r);
    assert(nr =~= r);
    assert(ns.contains(ns[0]));
    lemma_top_selection_exists(ns, ns[0]);
    let y = choose|y: Seq<char>| is_top_selection(ns, y);
    assert(r.contains(y));
    assert forall|x: Seq<char>| again.contains(x) <==> r.contains(x) by {
        if r.contains(x) {
            assert(is_top_selection(ns, x));
            assert forall|q: Seq<char>| nr.contains(q) implies !nested_under(q, x) by {
                assert(r.contains(q));
                assert(ns.contains(q));
            }
        }
    }
    lemma_sorted_selections_unique(again, r);
}

} // verus!

verus! {

/// Reordering the selections changes nothing when none is rejected: no
/// reordered selection is rejected either, both have as many selections,
/// and their canonical forms are the same list. (When some selection is
/// rejected, which rejection is reported first depends on the order.)
pub proof fn law_canonical_form_ignores_order(
    paths: Seq<Seq<char>>,
    reordered: Seq<Seq<char>>,
    r1: Seq<Seq<char>>,
    r2: Seq<Seq<char>>,
)
    requires
        reordered.to_multiset() == paths.to_multiset(),
        first_rejection(paths) is None,
        sorted_selections(r1),
        forall|x: Seq<char>| r1.contains(x) <==> is_top_selection(normalized_selections(paths), x),
        sorted_selections(r2),
        forall|x: Seq<char>|
            r2.contains(x) <==> is_top_selection(normalized_selections(reordered), x),
    ensures
        first_rejection(reordered) is None,
        normalized_selections(reordered).len() == normalized_selections(paths).len(),
        r1 == r2,
{
    broadcast use vstd::seq_lib::group_to_multiset_ensures;

    lemma_no_rejection_all_ok(paths);
    lemma_no_rejection_all_ok(reordered);
    let n1 = normalized_selections(paths);
    let n2 = normalized_selections(reordered);
    assert forall|j: int| 0 <= j < reordered.len() implies #[trigger] directory_outcome(
        reordered[j],
    ) is Ok && exists|i: int| 0 <= i < paths.len() && paths[i] == reordered[j] by {
        assert(reordered.contains(reordered[j]));
        assert(reordered.to_multiset().count(reordered[j]) > 0);
        assert(paths.contains(reordered[j]));
        let i = choose|i: int| 0 <= i < paths.len() && paths[i] == reordered[j];
        assert(directory_outcome(paths[i]) is Ok);
    }
    assert(reordered.len() == paths.len()) by {
        assert(reordered.len() == reordered.to_multiset().len());
        assert(paths.len() == paths.to_multiset().len());
    }
    assert forall|x: Seq<char>| n1.contains(x) <==> n2.contains(x) by {
        if n1.contains(x) {
            let i = choose|i: int| 0 <= i < n1.len() && n1[i] == x;
            assert(paths.contains(paths[i]));
            assert(paths.to_multiset().count(paths[i]) > 0);
            assert(reordered.contains(paths[i]));
            let j = choose|j: int| 0 <= j < reordered.len() && reordered[j] == paths[i];
            assert(n2[j] == x);
        }
        if n2.contains(x) {
            let j = choose|j: int| 0 <= j < n2.len() && n2[j] == x;
            assert(directory_outcome(reordered[j]) is Ok);
            let i = choose|i: int| 0 <= i < paths.len() && paths[i] == reordered[j];
            assert(n1[i] == x);
        }
    }
    law_canonical_form_depends_on_selected_set(n1, n2, r1, r2);
}

} // verus!
