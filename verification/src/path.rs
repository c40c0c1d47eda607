//! Relative paths that a peer names and this side writes.
//!
//! A peer is free to send any text as a path. [`sanitize_rel`] turns it into a
//! [`RelPath`] that stays below the directory it is joined to, and
//! [`unique_path`] finds a name for it that is not taken yet.

use vstd::prelude::*;
use vstd::string::*;
use crate::number::{decimal, is_digit, push_decimal, law_decimal_digits, law_decimal_injective};
use crate::text::{chars_of, string_of};

verus! {

/// Both kinds of slash separate the parts of a path that comes from a peer.
pub open spec fn is_separator(c: char) -> bool {
    c == '/' || c == '\\'
}

/// The text between the separators, empty pieces included.
pub open spec fn segments(s: Seq<char>) -> Seq<Seq<char>>
    decreases s.len(),
{
    if s.len() == 0 {
        seq![Seq::<char>::empty()]
    } else {
        let before = segments(s.drop_last());
        if is_separator(s.last()) {
            before.push(Seq::<char>::empty())
        } else {
            before.drop_last().push(before.last().push(s.last()))
        }
    }
}

/// Empty pieces and `.` name nothing and are passed over.
pub open spec fn is_kept(p: Seq<char>) -> bool {
    p.len() > 0 && p != seq!['.']
}

/// A piece that would leave the directory, or that names a drive or a stream.
pub open spec fn is_bad(p: Seq<char>) -> bool {
    p == seq!['.', '.'] || p.contains(':')
}

/// Characters that a file name must not hold on every system.
pub open spec fn is_forbidden(c: char) -> bool {
    ||| c == '<'
    ||| c == '>'
    ||| c == ':'
    ||| c == '"'
    ||| c == '|'
    ||| c == '?'
    ||| c == '*'
    ||| (c as u32) < 32
}

/// What is written in the place of a character.
pub open spec fn clean_char(c: char) -> char {
    if is_forbidden(c) {
        '_'
    } else {
        c
    }
}

/// A text without the spaces and dots at its end.
pub open spec fn trim_tail(s: Seq<char>) -> Seq<char>
    decreases s.len(),
{
    if s.len() > 0 && (s.last() == ' ' || s.last() == '.') {
        trim_tail(s.drop_last())
    } else {
        s
    }
}

/// The name under which a piece is written.
pub open spec fn clean_part(p: Seq<char>) -> Seq<char> {
    trim_tail(p.map_values(|c: char| clean_char(c)))
}

/// The cleaned pieces of a path, in order.
pub open spec fn clean_parts(segs: Seq<Seq<char>>) -> Seq<Seq<char>> {
    segs.filter(|p: Seq<char>| is_kept(p)).map_values(|p: Seq<char>| clean_part(p))
}

/// Whether some part is more than the empty text.
pub open spec fn names_something(parts: Seq<Seq<char>>) -> bool {
    exists|i: int| 0 <= i < parts.len() && (#[trigger] parts[i]).len() > 0
}

/// Whether some piece of a path is refused.
pub open spec fn has_bad(segs: Seq<Seq<char>>) -> bool {
    exists|i: int| 0 <= i < segs.len() && is_bad(#[trigger] segs[i])
}

/// The parts of the path that a peer's text stands for, or the reason why it
/// is refused.
pub open spec fn sanitized(rel: Seq<char>) -> Result<Seq<Seq<char>>, Seq<char>> {
    let segs = segments(rel);
    if has_bad(segs) {
        Err("bad path"@)
    } else if !names_something(clean_parts(segs)) {
        Err("empty path"@)
    } else {
        Ok(clean_parts(segs))
    }
}

/// A part that is safe to join to a directory: no separator, no forbidden
/// character, and no space or dot at its end (so neither `.` nor `..`).
pub open spec fn plain_part(p: Seq<char>) -> bool {
    &&& forall|i: int|
        0 <= i < p.len() ==> !is_separator(#[trigger] p[i]) && !is_forbidden(p[i])
    &&& p.len() > 0 ==> p.last() != ' ' && p.last() != '.'
}

/// What every [`RelPath`] holds: safe parts, and at least one that is not
/// empty.
pub open spec fn valid_parts(parts: Seq<Seq<char>>) -> bool {
    &&& forall|i: int| 0 <= i < parts.len() ==> plain_part(#[trigger] parts[i])
    &&& names_something(parts)
}

/// Where the last part stands that is not empty.
pub open spec fn last_named(parts: Seq<Seq<char>>) -> int
    decreases parts.len(),
{
    if parts.len() == 0 {
        -1
    } else if parts.last().len() > 0 {
        parts.len() - 1
    } else {
        last_named(parts.drop_last())
    }
}

/// The name of the file that a path leads to.
pub open spec fn file_name_of(parts: Seq<Seq<char>>) -> Seq<char> {
    parts[last_named(parts)]
}

/// Where the extension of a file name starts, its dot included: at the last
/// dot, unless that is the first character or there is none.
pub open spec fn extension_at(name: Seq<char>) -> int {
    match name.index_of_last('.') {
        Some(i) => if i > 0 {
            i
        } else {
            name.len() as int
        },
        None => name.len() as int,
    }
}

/// `name` with a number before its extension: `a.txt` becomes `a (1).txt`.
pub open spec fn numbered(name: Seq<char>, n: nat) -> Seq<char> {
    let at = extension_at(name);
    name.take(at) + seq![' ', '('] + decimal(n) + seq![')'] + name.skip(at)
}

/// A path whose last name bears a number.
pub open spec fn numbered_parts(parts: Seq<Seq<char>>, n: nat) -> Seq<Seq<char>> {
    parts.take(last_named(parts)).push(numbered(file_name_of(parts), n))
}

/// How many names [`unique_path`] looks at, the path's own included.
pub const NAME_LIMIT: u64 = 10000;

/// The texts behind a sequence of strings.
pub open spec fn texts(v: Seq<String>) -> Seq<Seq<char>> {
    v.map_values(|s: String| s@)
}

/// The texts behind a sequence of character vectors.
pub open spec fn runs(v: Seq<Vec<char>>) -> Seq<Seq<char>> {
    v.map_values(|s: Vec<char>| s@)
}

/// A path below some directory, part by part. An empty part stands for a
/// separator with nothing behind it.
pub struct RelPath {
    parts: Vec<String>,
}

impl RelPath {
    #[verifier::type_invariant]
    closed spec fn inv(&self) -> bool {
        valid_parts(texts(self.parts@))
    }
}

impl View for RelPath {
    type V = Seq<Seq<char>>;

    closed spec fn view(&self) -> Seq<Seq<char>> {
        texts(self.parts@)
    }
}

proof fn lemma_segments(s: Seq<char>)
    ensures
        segments(s).len() > 0,
        forall|i: int, j: int|
            0 <= i < segments(s).len() && 0 <= j < segments(s)[i].len() ==> !is_separator(
                #[trigger] segments(s)[i][j],
            ),
    decreases s.len(),
{
    if s.len() > 0 {
        lemma_segments(s.drop_last());
    }
}

proof fn lemma_trim(s: Seq<char>)
    ensures
        trim_tail(s).len() <= s.len(),
        trim_tail(s) == s.take(trim_tail(s).len() as int),
        trim_tail(s).len() > 0 ==> trim_tail(s).last() != ' ' && trim_tail(s).last() != '.',
    decreases s.len(),
{
    if s.len() > 0 && (s.last() == ' ' || s.last() == '.') {
        lemma_trim(s.drop_last());
        let n = trim_tail(s).len() as int;
        assert(s.drop_last().take(n) =~= s.take(n));
    } else {
        assert(s.take(s.len() as int) =~= s);
    }
}

proof fn lemma_clean_part(p: Seq<char>)
    requires
        forall|j: int| 0 <= j < p.len() ==> !is_separator(#[trigger] p[j]),
    ensures
        plain_part(clean_part(p)),
{
    let m = p.map_values(|c: char| clean_char(c));
    lemma_trim(m);
    let r = clean_part(p);
    assert forall|i: int| 0 <= i < r.len() implies !is_separator(#[trigger] r[i])
        && !is_forbidden(r[i]) by {
        assert(r[i] == m[i]);
        assert(!is_separator(p[i]));
    }
}

proof fn lemma_last_named(parts: Seq<Seq<char>>)
    requires
        names_something(parts),
    ensures
        0 <= last_named(parts) < parts.len(),
        parts[last_named(parts)].len() > 0,
        forall|j: int| last_named(parts) < j < parts.len() ==> (#[trigger] parts[j]).len() == 0,
    decreases parts.len(),
{
    let w = choose|w: int| 0 <= w < parts.len() && (#[trigger] parts[w]).len() > 0;
    if parts.last().len() == 0 {
        assert(parts.drop_last()[w] == parts[w]);
        lemma_last_named(parts.drop_last());
        let k = last_named(parts);
        assert(parts.drop_last()[k] == parts[k]);
        assert forall|j: int| k < j < parts.len() implies (#[trigger] parts[j]).len() == 0 by {
            if j < parts.len() - 1 {
                assert(parts.drop_last()[j] == parts[j]);
            }
        }
    }
}

proof fn lemma_decimal_plain(n: nat)
    ensures
        forall|i: int|
            0 <= i < decimal(n).len() ==> !is_separator(#[trigger] decimal(n)[i])
                && !is_forbidden(decimal(n)[i]),
{
    law_decimal_digits(n);
    assert forall|i: int| 0 <= i < decimal(n).len() implies !is_separator(#[trigger] decimal(n)[i])
        && !is_forbidden(decimal(n)[i]) by {
        assert(is_digit(decimal(n)[i]));
    }
}

proof fn lemma_extension_at(name: Seq<char>)
    requires
        name.len() > 0,
    ensures
        0 < extension_at(name) <= name.len(),
{
    name.index_of_last_ensures('.');
}

proof fn lemma_numbered(name: Seq<char>, n: nat)
    requires
        plain_part(name),
        name.len() > 0,
    ensures
        plain_part(numbered(name, n)),
        numbered(name, n).len() > name.len(),
{
    lemma_extension_at(name);
    lemma_decimal_plain(n);
    let at = extension_at(name);
    let a = name.take(at) + seq![' ', '('];
    let b = a + decimal(n);
    let c = b + seq![')'];
    let r = numbered(name, n);
    assert(r == c + name.skip(at));
    assert forall|i: int| 0 <= i < r.len() implies !is_separator(#[trigger] r[i]) && !is_forbidden(
        r[i],
    ) by {
        if i < at {
            assert(r[i] == name[i]);
        } else if i < a.len() {
            assert(r[i] == seq![' ', '('][i - at]);
        } else if i < b.len() {
            assert(r[i] == decimal(n)[i - a.len()]);
        } else if i < c.len() {
            assert(r[i] == ')');
        } else {
            assert(r[i] == name[at + (i - c.len())]);
        }
    }
    if at < name.len() {
        assert(r.last() == name.last());
    } else {
        assert(r.last() == ')');
    }
}

proof fn lemma_numbered_parts(parts: Seq<Seq<char>>, n: nat)
    requires
        valid_parts(parts),
    ensures
        valid_parts(numbered_parts(parts, n)),
{
    lemma_last_named(parts);
    let k = last_named(parts);
    lemma_numbered(parts[k], n);
    let r = numbered_parts(parts, n);
    assert forall|i: int| 0 <= i < r.len() implies plain_part(#[trigger] r[i]) by {
        if i < k {
            assert(r[i] == parts[i]);
        }
    }
    assert(r[k].len() > 0);
}

/// No part of a path leads out of the directory it is joined to: none is `.`
/// or `..`, and none holds a separator or a colon.
pub proof fn law_parts_stay_inside(parts: Seq<Seq<char>>, i: int)
    requires
        valid_parts(parts),
        0 <= i < parts.len(),
    ensures
        parts[i] != seq!['.'],
        parts[i] != seq!['.', '.'],
        !parts[i].contains('/'),
        !parts[i].contains('\\'),
        !parts[i].contains(':'),
{
    assert(plain_part(parts[i]));
    let p = parts[i];
    if p == seq!['.'] || p == seq!['.', '.'] {
        assert(p.last() == '.');
    }
    if p.contains('/') {
        let j = choose|j: int| 0 <= j < p.len() && p[j] == '/';
        assert(is_separator(p[j]));
    }
    if p.contains('\\') {
        let j = choose|j: int| 0 <= j < p.len() && p[j] == '\\';
        assert(is_separator(p[j]));
    }
    if p.contains(':') {
        let j = choose|j: int| 0 <= j < p.len() && p[j] == ':';
        assert(is_forbidden(p[j]));
    }
}

/// Whatever text a peer sends, a path that is taken from it is safe.
pub proof fn law_sanitized_is_valid(rel: Seq<char>)
    requires
        sanitized(rel) is Ok,
    ensures
        valid_parts(sanitized(rel)->Ok_0),
{
    let segs = segments(rel);
    lemma_segments(rel);
    let kept = |p: Seq<char>| is_kept(p);
    let f = segs.filter(kept);
    let parts = clean_parts(segs);
    assert forall|i: int| 0 <= i < parts.len() implies plain_part(#[trigger] parts[i]) by {
        assert(parts[i] == clean_part(f[i]));
        assert(f.contains(f[i]));
        segs.lemma_filter_contains_rev(kept, f[i]);
        assert(segs.contains(f[i]));
        let k = choose|k: int| 0 <= k < segs.len() && segs[k] == f[i];
        assert forall|j: int| 0 <= j < f[i].len() implies !is_separator(#[trigger] f[i][j]) by {
            assert(!is_separator(segs[k][j]));
        }
        lemma_clean_part(f[i]);
    }
}

proof fn lemma_last_dot(stem: Seq<char>, ext: Seq<char>)
    requires
        stem.len() > 0,
        !ext.contains('.'),
    ensures
        extension_at(stem.push('.') + ext) == stem.len(),
{
    let name = stem.push('.') + ext;
    name.index_of_last_ensures('.');
    assert(name[stem.len() as int] == '.');
    assert(name.contains('.'));
    let i = name.index_of_last('.')->0;
    if i > stem.len() {
        assert(ext[i - stem.len() - 1] == '.');
    }
}

/// A numbered name keeps its extension, however long that is: the number goes
/// behind the stem, before the last dot.
pub proof fn law_number_before_extension(stem: Seq<char>, ext: Seq<char>, n: nat)
    requires
        stem.len() > 0,
        !ext.contains('.'),
    ensures
        numbered(stem.push('.') + ext, n) == stem + seq![' ', '('] + decimal(n) + seq![')', '.'] + ext,
{
    let name = stem.push('.') + ext;
    lemma_last_dot(stem, ext);
    assert(name.take(stem.len() as int) =~= stem);
    assert(name.skip(stem.len() as int) =~= seq!['.'] + ext);
    assert(numbered(name, n) =~= stem + seq![' ', '('] + decimal(n) + seq![')', '.'] + ext);
}

/// A name without a dot behind its first character has the number at its end.
pub proof fn law_number_at_end(name: Seq<char>, n: nat)
    requires
        name.len() > 0,
        forall|i: int| 1 <= i < name.len() ==> #[trigger] name[i] != '.',
    ensures
        numbered(name, n) == name + seq![' ', '('] + decimal(n) + seq![')'],
{
    name.index_of_last_ensures('.');
    assert(extension_at(name) == name.len());
    assert(name.take(name.len() as int) =~= name);
    assert(name.skip(name.len() as int) =~= Seq::<char>::empty());
    assert(numbered(name, n) =~= name + seq![' ', '('] + decimal(n) + seq![')']);
}

/// The name of a path is its last part that is not empty. That alone takes the
/// number; the parts before it stay, and the empty ones behind it are gone.
pub proof fn law_last_name_numbered(
    dirs: Seq<Seq<char>>,
    name: Seq<char>,
    tail: Seq<Seq<char>>,
    n: nat,
)
    requires
        name.len() > 0,
        forall|i: int| 0 <= i < tail.len() ==> (#[trigger] tail[i]).len() == 0,
    ensures
        file_name_of(dirs.push(name) + tail) == name,
        numbered_parts(dirs.push(name) + tail, n) == dirs.push(numbered(name, n)),
{
    let parts = dirs.push(name) + tail;
    assert(parts[dirs.len() as int].len() > 0);
    lemma_last_named(parts);
    let k = last_named(parts);
    if k > dirs.len() {
        assert(parts[k] == tail[k - dirs.len() - 1]);
    }
    assert(k == dirs.len());
    assert(parts.take(k) =~= dirs);
}

/// Two different numbers give two different names, and neither is the name
/// that they were put into.
pub proof fn law_numbered_distinct(name: Seq<char>, m: nat, n: nat)
    requires
        name.len() > 0,
        m != n,
    ensures
        numbered(name, m) != numbered(name, n),
        numbered(name, m) != name,
{
    lemma_extension_at(name);
    let at = extension_at(name);
    let x = numbered(name, m);
    let y = numbered(name, n);
    assert(x.len() == name.len() + 3 + decimal(m).len());
    assert(y.len() == name.len() + 3 + decimal(n).len());
    if x == y {
        assert(x.subrange(at + 2, at + 2 + decimal(m).len()) =~= decimal(m));
        assert(y.subrange(at + 2, at + 2 + decimal(n).len()) =~= decimal(n));
        law_decimal_injective(m, n);
    }
}

/// A text with every backslash turned into a slash.
pub open spec fn slashed(s: Seq<char>) -> Seq<char> {
    s.map_values(
        |c: char|
            if c == '\\' {
                '/'
            } else {
                c
            },
    )
}

/// A path without its first piece: what stands behind the first separator,
/// or all of it where there is none.
pub open spec fn stripped(s: Seq<char>) -> Seq<char> {
    let r = slashed(s);
    match r.index_of_first('/') {
        Some(i) => r.skip(i + 1),
        None => r,
    }
}

/// The parts with a slash between each two.
pub open spec fn joined(parts: Seq<Seq<char>>) -> Seq<char>
    decreases parts.len(),
{
    if parts.len() == 0 {
        Seq::empty()
    } else if parts.len() == 1 {
        parts[0]
    } else {
        joined(parts.drop_last()).push('/') + parts.last()
    }
}

/// Stripping undoes the prefix: behind a root name without separators, the
/// rest of the path comes out, with its separators as slashes.
pub proof fn law_strip_root_undoes_prefix(root: Seq<char>, sep: char, rest: Seq<char>)
    requires
        forall|i: int| 0 <= i < root.len() ==> !is_separator(#[trigger] root[i]),
        is_separator(sep),
    ensures
        stripped(root.push(sep) + rest) == slashed(rest),
{
    let s = root.push(sep) + rest;
    let r = slashed(s);
    r.index_of_first_ensures('/');
    assert(r[root.len() as int] == '/');
    assert(r.contains('/'));
    let i = r.index_of_first('/')->0;
    assert(i <= root.len());
    if i < root.len() {
        assert(s[i] == root[i]);
        assert(!is_separator(root[i]));
    }
    assert(r.skip(i + 1) =~= slashed(rest));
}

/// Every backslash becomes a slash, and nothing else changes.
pub proof fn law_backslashes_become_slashes(s: Seq<char>)
    ensures
        slashed(s).len() == s.len(),
        forall|i: int|
            0 <= i < s.len() ==> (if s[i] == '\\' {
                #[trigger] slashed(s)[i] == '/'
            } else {
                slashed(s)[i] == s[i]
            }),
{
}

/// Stripping takes off what stands up to the first slash of either kind, and
/// that slash; a text without one only has its backslashes turned, and so stays
/// as it is.
pub proof fn law_strip_root_takes_first(root: Seq<char>, sep: char, rest: Seq<char>)
    requires
        forall|i: int| 0 <= i < root.len() ==> #[trigger] root[i] != '/' && root[i] != '\\',
        sep == '/' || sep == '\\',
    ensures
        stripped(root.push(sep) + rest) == slashed(rest),
        stripped(root) == root,
{
    law_strip_root_undoes_prefix(root, sep, rest);
    let r = slashed(root);
    r.index_of_first_ensures('/');
    if r.contains('/') {
        let i = choose|i: int| 0 <= i < r.len() && r[i] == '/';
        assert(root[i] != '/' && root[i] != '\\');
    }
    assert(r =~= root);
}

/// A separator ends one piece and starts the next, whatever stands around it.
pub proof fn law_segments_concat(a: Seq<char>, sep: char, b: Seq<char>)
    requires
        is_separator(sep),
    ensures
        segments(a.push(sep) + b) == segments(a) + segments(b),
    decreases b.len(),
{
    lemma_segments(a);
    lemma_segments(b);
    let s = a.push(sep) + b;
    if b.len() == 0 {
        assert(s.drop_last() =~= a);
        assert(segments(s) =~= segments(a) + segments(b));
    } else {
        law_segments_concat(a, sep, b.drop_last());
        lemma_segments(b.drop_last());
        assert(s.drop_last() =~= a.push(sep) + b.drop_last());
        let x = segments(a) + segments(b.drop_last());
        assert(x.last() == segments(b.drop_last()).last());
        assert(x.drop_last() =~= segments(a) + segments(b.drop_last()).drop_last());
        assert(segments(s) =~= segments(a) + segments(b));
    }
}

proof fn lemma_segments_slashed(s: Seq<char>)
    ensures
        segments(slashed(s)) == segments(s),
    decreases s.len(),
{
    let r = slashed(s);
    if s.len() == 0 {
        assert(r =~= s);
    } else {
        lemma_segments_slashed(s.drop_last());
        assert(r.drop_last() =~= slashed(s.drop_last()));
        assert(is_separator(r.last()) == is_separator(s.last()));
        if !is_separator(s.last()) {
            assert(r.last() == s.last());
        }
    }
}

/// Both kinds of slash mean the same.
pub proof fn law_slashes_alike(rel: Seq<char>)
    ensures
        sanitized(slashed(rel)) == sanitized(rel),
{
    lemma_segments_slashed(rel);
}

proof fn lemma_one_segment(p: Seq<char>)
    requires
        forall|i: int| 0 <= i < p.len() ==> !is_separator(#[trigger] p[i]),
    ensures
        segments(p) == seq![p],
    decreases p.len(),
{
    if p.len() == 0 {
        assert(p =~= Seq::<char>::empty());
    } else {
        lemma_one_segment(p.drop_last());
        assert(p.drop_last().push(p.last()) =~= p);
        assert(segments(p) =~= seq![p]);
    }
}

proof fn lemma_segments_of_joined(parts: Seq<Seq<char>>)
    requires
        parts.len() > 0,
        forall|i: int| 0 <= i < parts.len() ==> plain_part(#[trigger] parts[i]),
    ensures
        segments(joined(parts)) == parts,
    decreases parts.len(),
{
    assert(plain_part(parts.last()));
    lemma_one_segment(parts.last());
    if parts.len() == 1 {
        assert(parts =~= seq![parts[0]]);
    } else {
        let init = parts.drop_last();
        assert forall|i: int| 0 <= i < init.len() implies plain_part(#[trigger] init[i]) by {
            assert(init[i] == parts[i]);
        }
        lemma_segments_of_joined(init);
        law_segments_concat(joined(init), '/', parts.last());
        assert(init + seq![parts.last()] =~= parts);
    }
}

proof fn lemma_clean_keeps_plain(p: Seq<char>)
    requires
        plain_part(p),
    ensures
        clean_part(p) == p,
{
    assert(p.map_values(|c: char| clean_char(c)) =~= p);
}

proof fn lemma_filter_alike<A>(s: Seq<A>, f: spec_fn(A) -> bool, g: spec_fn(A) -> bool)
    requires
        forall|i: int| 0 <= i < s.len() ==> f(#[trigger] s[i]) == g(s[i]),
    ensures
        s.filter(f) == s.filter(g),
    decreases s.len(),
{
    reveal(Seq::filter);
    if s.len() > 0 {
        let init = s.drop_last();
        assert forall|i: int| 0 <= i < init.len() implies f(#[trigger] init[i]) == g(init[i]) by {
            assert(init[i] == s[i]);
        }
        assert(f(s[s.len() - 1]) == g(s[s.len() - 1]));
        lemma_filter_alike(init, f, g);
    }
}

/// The parts that are more than the empty text.
pub open spec fn named_parts(parts: Seq<Seq<char>>) -> Seq<Seq<char>> {
    parts.filter(|p: Seq<char>| p.len() > 0)
}

/// A path that was made safe once is left as it is: the parts with slashes
/// between them give the same parts back, without the empty ones.
pub proof fn law_sanitize_keeps_safe(parts: Seq<Seq<char>>)
    requires
        valid_parts(parts),
    ensures
        sanitized(joined(parts)) == Ok::<Seq<Seq<char>>, Seq<char>>(named_parts(parts)),
        (forall|i: int| 0 <= i < parts.len() ==> (#[trigger] parts[i]).len() > 0) ==> named_parts(parts)
            == parts,
{
    lemma_segments_of_joined(parts);
    let kept = |p: Seq<char>| is_kept(p);
    let named = |p: Seq<char>| p.len() > 0;
    assert forall|i: int| 0 <= i < parts.len() implies kept(#[trigger] parts[i]) == named(parts[i])
        && !is_bad(parts[i]) by {
        law_parts_stay_inside(parts, i);
    }
    lemma_filter_alike(parts, kept, named);
    let f = parts.filter(kept);
    assert forall|i: int| 0 <= i < f.len() implies clean_part(#[trigger] f[i]) == f[i] by {
        assert(f.contains(f[i]));
        parts.lemma_filter_contains_rev(kept, f[i]);
        let k = choose|k: int| 0 <= k < parts.len() && parts[k] == f[i];
        assert(plain_part(parts[k]));
        lemma_clean_keeps_plain(f[i]);
    }
    assert(clean_parts(parts) =~= f);
    let w = choose|w: int| 0 <= w < parts.len() && (#[trigger] parts[w]).len() > 0;
    parts.lemma_filter_contains(named, w);
    let x = choose|x: int| 0 <= x < f.len() && f[x] == parts[w];
    assert(f[x].len() > 0);
    if forall|i: int| 0 <= i < parts.len() ==> (#[trigger] parts[i]).len() > 0 {
        let all = |p: Seq<char>| true;
        lemma_filter_alike(parts, named, all);
        lemma_filter_true(parts);
    }
}

proof fn lemma_filter_true<A>(s: Seq<A>)
    ensures
        s.filter(|a: A| true) == s,
    decreases s.len(),
{
    reveal(Seq::filter);
    if s.len() > 0 {
        lemma_filter_true(s.drop_last());
        assert(s.drop_last().push(s.last()) =~= s);
    }
}

/// A path keeps its names: pieces that are not empty, hold no slash of either
/// kind, none of `< > : " | ? *` and no character below a space, and do not end in
/// a space or a dot, come out as they are.
pub proof fn law_names_are_kept(pieces: Seq<Seq<char>>)
    requires
        pieces.len() > 0,
        forall|i: int|
            0 <= i < pieces.len() ==> (#[trigger] pieces[i]).len() > 0 && pieces[i].last() != ' '
                && pieces[i].last() != '.',
        forall|i: int, j: int|
            0 <= i < pieces.len() && 0 <= j < pieces[i].len() ==> ({
                let c = #[trigger] pieces[i][j];
                &&& c != '/' && c != '\\' && c != '<' && c != '>' && c != ':' && c != '"'
                &&& c != '|' && c != '?' && c != '*' && c as u32 >= 32
            }),
    ensures
        sanitized(joined(pieces)) == Ok::<Seq<Seq<char>>, Seq<char>>(pieces),
{
    assert forall|i: int| 0 <= i < pieces.len() implies plain_part(#[trigger] pieces[i]) by {
        let p = pieces[i];
        assert forall|j: int| 0 <= j < p.len() implies !is_separator(#[trigger] p[j])
            && !is_forbidden(p[j]) by {
            assert(pieces[i][j] == p[j]);
        }
    }
    assert(pieces[0].len() > 0);
    assert(valid_parts(pieces));
    law_sanitize_keeps_safe(pieces);
}

/// A path of one piece: nothing and `.` name nothing; `..` and anything with a
/// colon is bad; and in any other name `< > " | ? *` and what is below a space
/// become underscores, while spaces and dots at its end are gone.
pub proof fn law_one_piece(p: Seq<char>)
    requires
        forall|i: int| 0 <= i < p.len() ==> #[trigger] p[i] != '/' && p[i] != '\\',
    ensures
        p == seq!['.', '.'] || p.contains(':') ==> sanitized(p) == Err::<
            Seq<Seq<char>>,
            Seq<char>,
        >("bad path"@),
        p != seq!['.', '.'] && (forall|i: int|
            0 <= i < p.len() ==> #[trigger] p[i] == ' ' || p[i] == '.') ==> sanitized(p) == Err::<
            Seq<Seq<char>>,
            Seq<char>,
        >("empty path"@),
        !p.contains(':') && (exists|i: int|
            0 <= i < p.len() && #[trigger] p[i] != ' ' && p[i] != '.') ==> ({
            let q = sanitized(p)->Ok_0[0];
            &&& sanitized(p) is Ok
            &&& sanitized(p)->Ok_0.len() == 1
            &&& 0 < q.len() <= p.len()
            &&& p[q.len() - 1] != ' ' && p[q.len() - 1] != '.'
            &&& forall|i: int| q.len() <= i < p.len() ==> #[trigger] p[i] == ' ' || p[i] == '.'
            &&& forall|i: int|
                0 <= i < q.len() ==> (if p[i] == '<' || p[i] == '>' || p[i] == '"' || p[i] == '|'
                    || p[i] == '?' || p[i] == '*' || (p[i] as u32) < 32 {
                    #[trigger] q[i] == '_'
                } else {
                    q[i] == p[i]
                })
        }),
{
    lemma_one_segment(p);
    let segs = seq![p];
    let kept = |x: Seq<char>| is_kept(x);
    let m = p.map_values(|c: char| clean_char(c));
    let q = clean_part(p);
    lemma_trim(m);
    lemma_trimmed_away(m);
    Seq::<Seq<char>>::empty().lemma_filter_push(p, kept);
    assert(segs =~= Seq::<Seq<char>>::empty().push(p));
    assert(Seq::<Seq<char>>::empty().filter(kept) =~= Seq::<Seq<char>>::empty()) by {
        reveal(Seq::filter);
    }
    assert(clean_parts(segs) =~= (if is_kept(p) {
        seq![q]
    } else {
        Seq::<Seq<char>>::empty()
    }));
    assert(segs[0] == p);
    if p.contains(':') {
        assert(is_bad(segs[0]));
    } else if p == seq!['.', '.'] {
        assert(is_bad(segs[0]));
    } else {
        assert(!is_bad(p));
        assert(!has_bad(segs));
        if exists|i: int| 0 <= i < p.len() && #[trigger] p[i] != ' ' && p[i] != '.' {
            let i = choose|i: int| 0 <= i < p.len() && #[trigger] p[i] != ' ' && p[i] != '.';
            assert(m[i] != ' ' && m[i] != '.');
            assert(p != seq!['.']) by {
                if p == seq!['.'] {
                    assert(p[i] == '.');
                }
            }
            assert(q.len() > 0);
            assert(clean_parts(segs)[0].len() > 0);
            assert(q[q.len() - 1] == m[q.len() - 1]);
            assert forall|i: int| 0 <= i < p.len() && p[i] == ':' implies false by {
                assert(p.contains(':'));
            }
            assert forall|i: int| q.len() <= i < p.len() implies #[trigger] p[i] == ' ' || p[i] == '.' by {
                assert(m[i] == ' ' || m[i] == '.');
            }
            assert forall|i: int| 0 <= i < q.len() implies q[i] == m[i] by {}
        } else {
            assert forall|i: int| 0 <= i < m.len() implies #[trigger] m[i] == ' ' || m[i] == '.' by {
                assert(p[i] == ' ' || p[i] == '.');
            }
            if q.len() > 0 {
                assert(q.last() == m[q.len() - 1]);
            }
            assert(!names_something(clean_parts(segs)));
        }
    }
}

proof fn lemma_trimmed_away(s: Seq<char>)
    ensures
        forall|i: int|
            trim_tail(s).len() <= i < s.len() ==> #[trigger] s[i] == ' ' || s[i] == '.',
    decreases s.len(),
{
    if s.len() > 0 && (s.last() == ' ' || s.last() == '.') {
        lemma_trimmed_away(s.drop_last());
        assert forall|i: int| trim_tail(s).len() <= i < s.len() implies #[trigger] s[i] == ' ' || s[i]
            == '.' by {
            if i < s.len() - 1 {
                assert(s.drop_last()[i] == s[i]);
            }
        }
    }
}

/// Two paths with a separator between them are taken as one behind the other:
/// what is bad in either is bad, the parts are those of the first and then those
/// of the second, and one that names something is enough.
pub proof fn law_sanitize_joins(a: Seq<char>, sep: char, b: Seq<char>)
    requires
        is_separator(sep),
    ensures
        sanitized(a.push(sep) + b) == (if has_bad(segments(a)) || has_bad(segments(b)) {
            Err("bad path"@)
        } else if !names_something(clean_parts(segments(a))) && !names_something(
            clean_parts(segments(b)),
        ) {
            Err("empty path"@)
        } else {
            Ok::<Seq<Seq<char>>, Seq<char>>(clean_parts(segments(a)) + clean_parts(segments(b)))
        }),
        sanitized(a) is Ok && sanitized(b) is Ok ==> sanitized(a.push(sep) + b) == Ok::<
            Seq<Seq<char>>,
            Seq<char>,
        >(sanitized(a)->Ok_0 + sanitized(b)->Ok_0),
        sanitized(a) == Err::<Seq<Seq<char>>, Seq<char>>("bad path"@) || sanitized(b) == Err::<
            Seq<Seq<char>>,
            Seq<char>,
        >("bad path"@) ==> sanitized(a.push(sep) + b) == Err::<Seq<Seq<char>>, Seq<char>>(
            "bad path"@,
        ),
{
    reveal_strlit("bad path");
    reveal_strlit("empty path");
    assert("bad path"@.len() != "empty path"@.len());
    law_segments_concat(a, sep, b);
    let x = segments(a);
    let y = segments(b);
    let kept = |p: Seq<char>| is_kept(p);
    Seq::filter_distributes_over_add(x, y, kept);
    let cx = clean_parts(x);
    let cy = clean_parts(y);
    assert(clean_parts(x + y) =~= cx + cy);
    if has_bad(x) {
        let i = choose|i: int| 0 <= i < x.len() && is_bad(#[trigger] x[i]);
        assert(is_bad((x + y)[i]));
    }
    if has_bad(y) {
        let i = choose|i: int| 0 <= i < y.len() && is_bad(#[trigger] y[i]);
        assert(is_bad((x + y)[x.len() + i]));
    }
    if has_bad(x + y) {
        let i = choose|i: int| 0 <= i < (x + y).len() && is_bad(#[trigger] (x + y)[i]);
        if i < x.len() {
            assert(is_bad(x[i]));
        } else {
            assert(is_bad(y[i - x.len()]));
        }
    }
    if names_something(cx) {
        let i = choose|i: int| 0 <= i < cx.len() && (#[trigger] cx[i]).len() > 0;
        assert((cx + cy)[i].len() > 0);
    }
    if names_something(cy) {
        let i = choose|i: int| 0 <= i < cy.len() && (#[trigger] cy[i]).len() > 0;
        assert((cx + cy)[cx.len() + i].len() > 0);
    }
    if names_something(cx + cy) {
        let i = choose|i: int| 0 <= i < (cx + cy).len() && (#[trigger] (cx + cy)[i]).len() > 0;
        if i < cx.len() {
            assert(cx[i].len() > 0);
        } else {
            assert(cy[i - cx.len()].len() > 0);
        }
    }
}

/// The pieces of a path, split at both kinds of slash.
fn split_segments(s: &str) -> (r: Vec<Vec<char>>)
    ensures
        runs(r@) == segments(s@),
{
    let v = chars_of(s);
    let mut out: Vec<Vec<char>> = Vec::new();
    let mut cur: Vec<char> = Vec::new();
    let mut i: usize = 0;
    proof {
        assert(v@.take(0) =~= Seq::<char>::empty());
        assert(runs(out@).push(cur@) =~= segments(v@.take(0)));
    }
    while i < v.len()
        invariant
            v@ == s@,
            i <= v.len(),
            runs(out@).push(cur@) == segments(v@.take(i as int)),
        decreases v.len() - i,
    {
        let c = v[i];
        let ghost before = segments(v@.take(i as int));
        proof {
            assert(v@.take(i + 1).drop_last() =~= v@.take(i as int));
            assert(before.drop_last() =~= runs(out@));
            assert(before.last() == cur@);
        }
        if c == '/' || c == '\\' {
            let ghost earlier = out@;
            let ghost done = cur@;
            out.push(cur);
            cur = Vec::new();
            proof {
                assert(runs(out@) =~= runs(earlier).push(done));
                assert(runs(out@).push(cur@) =~= before.push(Seq::<char>::empty()));
            }
        } else {
            cur.push(c);
        }
        i = i + 1;
    }
    let ghost earlier = out@;
    let ghost done = cur@;
    out.push(cur);
    proof {
        assert(runs(out@) =~= runs(earlier).push(done));
        assert(v@.take(v@.len() as int) =~= s@);
    }
    out
}

/// The name under which a piece is written.
fn clean_name(p: &Vec<char>) -> (r: Vec<char>)
    ensures
        r@ == clean_part(p@),
{
    let mut m: Vec<char> = Vec::new();
    let ghost mapped = p@.map_values(|c: char| clean_char(c));
    let mut i: usize = 0;
    while i < p.len()
        invariant
            i <= p.len(),
            mapped == p@.map_values(|c: char| clean_char(c)),
            m@ == mapped.take(i as int),
        decreases p.len() - i,
    {
        let c = p[i];
        let bad = c == '<' || c == '>' || c == ':' || c == '"' || c == '|' || c == '?' || c == '*'
            || (c as u32) < 32;
        m.push(if bad { '_' } else { c });
        proof {
            assert(mapped.take(i + 1) =~= mapped.take(i as int).push(mapped[i as int]));
        }
        i = i + 1;
    }
    proof {
        assert(mapped.take(mapped.len() as int) =~= mapped);
    }
    while m.len() > 0 && (m[m.len() - 1] == ' ' || m[m.len() - 1] == '.')
        invariant
            trim_tail(m@) == trim_tail(mapped),
        decreases m.len(),
    {
        m.pop();
    }
    m
}

/// Whether a character occurs in a run of characters.
fn holds(v: &Vec<char>, c: char) -> (r: bool)
    ensures
        r == v@.contains(c),
{
    let mut i: usize = 0;
    while i < v.len()
        invariant
            i <= v.len(),
            forall|j: int| 0 <= j < i ==> v@[j] != c,
        decreases v.len() - i,
    {
        if v[i] == c {
            return true;
        }
        i = i + 1;
    }
    false
}

/// Makes a path that a peer sent safe to write: slashes of both kinds split
/// it, empty pieces and `.` are passed over, `..` and anything with a colon
/// is refused, and each name is cleaned of what a file system may not take.
pub fn sanitize_rel(rel: &str) -> (r: Result<RelPath, String>)
    ensures
        match r {
            Ok(p) => sanitized(rel@) == Ok::<Seq<Seq<char>>, Seq<char>>(p@) && valid_parts(p@),
            Err(e) => sanitized(rel@) == Err::<Seq<Seq<char>>, Seq<char>>(e@),
        },
{
    let v = split_segments(rel);
    let ghost segs = segments(rel@);
    let ghost kept = |p: Seq<char>| is_kept(p);
    let mut out: Vec<String> = Vec::new();
    let mut named = false;
    let mut i: usize = 0;
    proof {
        lemma_segments(rel@);
        reveal(Seq::filter);
        assert(segs.take(0) =~= Seq::<Seq<char>>::empty());
        assert(texts(out@) =~= clean_parts(segs.take(0)));
    }
    while i < v.len()
        invariant
            runs(v@) == segs,
            segs == segments(rel@),
            kept == (|p: Seq<char>| is_kept(p)),
            i <= v.len(),
            forall|a: int, b: int|
                0 <= a < segs.len() && 0 <= b < segs[a].len() ==> !is_separator(
                    #[trigger] segs[a][b],
                ),
            forall|j: int| 0 <= j < i ==> !is_bad(#[trigger] segs[j]),
            texts(out@) == clean_parts(segs.take(i as int)),
            named == names_something(texts(out@)),
            forall|j: int| 0 <= j < out@.len() ==> plain_part(#[trigger] texts(out@)[j]),
        decreases v.len() - i,
    {
        let part = &v[i];
        let ghost p = segs[i as int];
        proof {
            assert(runs(v@)[i as int] == part@);
            assert(segs.take(i + 1) =~= segs.take(i as int).push(p));
            segs.take(i as int).lemma_filter_push(p, kept);
        }
        let dot = part.len() == 1 && part[0] == '.';
        let up = part.len() == 2 && part[0] == '.' && part[1] == '.';
        proof {
            assert(dot == (p =~= seq!['.']));
            assert(up == (p =~= seq!['.', '.']));
        }
        if part.len() > 0 && !dot {
            if up || holds(part, ':') {
                return Err("bad path".to_owned());
            }
            let name = clean_name(part);
            let ghost earlier = out@;
            if name.len() > 0 {
                named = true;
            }
            let text = string_of(&name);
            out.push(text);
            proof {
                assert forall|j: int| 0 <= j < p.len() implies !is_separator(#[trigger] p[j]) by {
                    assert(!is_separator(segs[i as int][j]));
                }
                lemma_clean_part(p);
                assert(texts(out@) =~= texts(earlier).push(clean_part(p)));
                assert(clean_parts(segs.take(i + 1)) =~= clean_parts(segs.take(i as int)).push(
                    clean_part(p),
                ));
                if names_something(texts(earlier)) {
                    let w = choose|w: int|
                        0 <= w < texts(earlier).len() && (#[trigger] texts(earlier)[w]).len() > 0;
                    assert(texts(out@)[w].len() > 0);
                }
                if names_something(texts(out@)) && !names_something(texts(earlier)) {
                    let w = choose|w: int|
                        0 <= w < texts(out@).len() && (#[trigger] texts(out@)[w]).len() > 0;
                    if w < earlier.len() {
                        assert(texts(earlier)[w].len() > 0);
                    }
                }
                if name@.len() > 0 {
                    assert(texts(out@)[earlier.len() as int].len() > 0);
                }
            }
        } else {
            proof {
                if part.len() == 0 {
                    assert(!p.contains(':'));
                }
                assert(!is_bad(p));
            }
        }
        i = i + 1;
    }
    proof {
        assert(segs.take(segs.len() as int) =~= segs);
        assert(!has_bad(segs));
    }
    if !named {
        return Err("empty path".to_owned());
    }
    Ok(RelPath { parts: out })
}

impl RelPath {
    /// The parts, to be joined to a directory one after the other.
    pub fn parts(&self) -> (r: &Vec<String>)
        ensures
            texts(r@) == self@,
            valid_parts(self@),
    {
        proof {
            use_type_invariant(self);
        }
        &self.parts
    }

    /// The path made of one name alone.
    pub(crate) fn single(name: &str) -> (r: RelPath)
        requires
            plain_part(name@),
            name@.len() > 0,
        ensures
            r@ == seq![name@],
            valid_parts(r@),
    {
        let mut parts: Vec<String> = Vec::new();
        parts.push(name.to_owned());
        proof {
            assert(texts(parts@) =~= seq![name@]);
            assert(texts(parts@)[0].len() > 0);
        }
        RelPath { parts }
    }

    /// This path with `below` behind it.
    pub fn join(&self, below: &RelPath) -> (r: RelPath)
        ensures
            r@ == self@ + below@,
            valid_parts(r@),
    {
        proof {
            use_type_invariant(self);
            use_type_invariant(below);
        }
        let mut parts = self.parts.clone();
        let mut more = below.parts.clone();
        proof {
            assert(texts(parts@) =~= self@);
            assert(texts(more@) =~= below@);
        }
        let ghost head = parts@;
        let ghost tail = more@;
        parts.append(&mut more);
        proof {
            assert(texts(parts@) =~= texts(head) + texts(tail));
            let all = texts(parts@);
            assert forall|i: int| 0 <= i < all.len() implies plain_part(#[trigger] all[i]) by {
                if i < head.len() {
                    assert(all[i] == self@[i]);
                } else {
                    assert(all[i] == below@[i - head.len()]);
                }
            }
            let w = choose|w: int| 0 <= w < self@.len() && (#[trigger] self@[w]).len() > 0;
            assert(all[w].len() > 0);
        }
        RelPath { parts }
    }

    /// Where the last part stands that is not empty.
    fn name_index(&self) -> (k: usize)
        ensures
            k == last_named(self@),
            k < self@.len(),
            self@[k as int].len() > 0,
            self@.len() == self.parts@.len(),
            valid_parts(self@),
    {
        proof {
            use_type_invariant(self);
            lemma_last_named(self@);
        }
        let mut k: usize = self.parts.len() - 1;
        while self.parts[k].as_str().is_empty()
            invariant
                self@ == texts(self.parts@),
                k < self.parts.len(),
                last_named(self@) <= k,
                0 <= last_named(self@),
                self@[last_named(self@)].len() > 0,
                forall|j: int|
                    last_named(self@) < j < self@.len() ==> (#[trigger] self@[j]).len() == 0,
            decreases k,
        {
            proof {
                assert(self@[k as int].len() == 0);
            }
            k = k - 1;
        }
        proof {
            assert(self@[k as int].len() > 0);
        }
        k
    }

    /// The name of the file that the path leads to: its last part that is not
    /// empty.
    pub fn file_name(&self) -> (r: String)
        ensures
            r@ == file_name_of(self@),
            plain_part(r@),
            r@.len() > 0,
            valid_parts(self@),
    {
        let k = self.name_index();
        self.parts[k].clone()
    }

    /// This path with a number in its last name.
    fn numbered(&self, n: u64) -> (r: RelPath)
        ensures
            r@ == numbered_parts(self@, n as nat),
            valid_parts(r@),
    {
        let k = self.name_index();
        let name = chars_of(self.parts[k].as_str());
        let mut at: usize = name.len();
        while at > 0 && name[at - 1] != '.'
            invariant
                at <= name.len(),
                forall|j: int| at <= j < name.len() ==> name@[j] != '.',
            decreases at,
        {
            at = at - 1;
        }
        proof {
            name@.index_of_last_ensures('.');
            if at > 0 {
                assert(name@[at - 1] == '.');
            }
        }
        if at <= 1 {
            at = name.len();
        } else {
            at = at - 1;
        }
        proof {
            assert(at == extension_at(name@));
        }
        let mut text = String::new();
        let mut i: usize = 0;
        while i < at
            invariant
                i <= at <= name.len(),
                text@ == name@.take(i as int),
            decreases at - i,
        {
            text.push(name[i]);
            proof {
                assert(name@.take(i + 1) =~= name@.take(i as int).push(name@[i as int]));
            }
            i = i + 1;
        }
        text.push(' ');
        text.push('(');
        push_decimal(&mut text, n);
        text.push(')');
        let ghost head = name@.take(at as int) + seq![' ', '('] + decimal(n as nat) + seq![')'];
        proof {
            assert(text@ =~= head);
            assert(head + name@.subrange(at as int, at as int) =~= head);
        }
        while i < name.len()
            invariant
                at <= i <= name.len(),
                text@ == head + name@.subrange(at as int, i as int),
            decreases name.len() - i,
        {
            text.push(name[i]);
            proof {
                assert(name@.subrange(at as int, i + 1) =~= name@.subrange(at as int, i as int).push(
                    name@[i as int],
                ));
                assert(text@ =~= head + name@.subrange(at as int, i + 1));
            }
            i = i + 1;
        }
        proof {
            assert(name@.subrange(at as int, name@.len() as int) =~= name@.skip(at as int));
        }
        let mut parts = self.parts.clone();
        let ghost whole = parts@;
        parts.truncate(k);
        parts.push(text);
        proof {
            assert(texts(whole) =~= self@);
            assert(texts(parts@) =~= numbered_parts(self@, n as nat));
            lemma_numbered_parts(self@, n as nat);
        }
        RelPath { parts }
    }
}

impl Clone for RelPath {
    fn clone(&self) -> (r: Self)
        ensures
            r@ == self@,
    {
        proof {
            use_type_invariant(self);
        }
        let parts = self.parts.clone();
        proof {
            assert(texts(parts@) =~= texts(self.parts@));
        }
        RelPath { parts }
    }
}

/// Whether `is_taken` was asked about a path and gave an answer.
pub open spec fn answered<F: Fn(&RelPath) -> bool>(
    is_taken: F,
    parts: Seq<Seq<char>>,
    answer: bool,
) -> bool {
    exists|q: RelPath| q@ == parts && call_ensures(is_taken, (&q,), answer)
}

/// Whether the path and its first `n` numbered names were all taken.
pub open spec fn all_taken<F: Fn(&RelPath) -> bool>(
    is_taken: F,
    parts: Seq<Seq<char>>,
    n: nat,
) -> bool {
    &&& answered(is_taken, parts, true)
    &&& forall|m: nat| 1 <= m <= n ==> answered(is_taken, #[trigger] numbered_parts(parts, m), true)
}

/// Whether `r` is the first name for `p` that is free, as far as `is_taken`
/// was asked.
pub open spec fn first_free<F: Fn(&RelPath) -> bool>(
    is_taken: F,
    p: Seq<Seq<char>>,
    r: Seq<Seq<char>>,
) -> bool {
    ||| r == p && answered(is_taken, p, false)
    ||| exists|n: nat|
        1 <= n < NAME_LIMIT && #[trigger] all_taken(is_taken, p, (n - 1) as nat) && answered(
            is_taken,
            numbered_parts(p, n),
            false,
        ) && r == numbered_parts(p, n)
    ||| r == p && all_taken(is_taken, p, (NAME_LIMIT - 1) as nat)
}

/// Where every answer says what is so, the path that [`unique_path`] gives is
/// free, unless `p` and all of its numbered names are taken.
pub proof fn law_unique_path_is_free<F: Fn(&RelPath) -> bool>(
    is_taken: F,
    taken: spec_fn(Seq<Seq<char>>) -> bool,
    p: Seq<Seq<char>>,
    r: Seq<Seq<char>>,
)
    requires
        forall|q: RelPath, b: bool| #[trigger]
            call_ensures(is_taken, (&q,), b) ==> b == taken(q@),
        first_free(is_taken, p, r),
    ensures
        !taken(r) || (taken(p) && forall|n: nat|
            1 <= n < NAME_LIMIT ==> taken(#[trigger] numbered_parts(p, n))),
{
    if taken(r) {
        assert(all_taken(is_taken, p, (NAME_LIMIT - 1) as nat));
        assert forall|n: nat| 1 <= n < NAME_LIMIT implies taken(#[trigger] numbered_parts(p, n)) by {
            assert(answered(is_taken, numbered_parts(p, n), true));
        }
    }
}

/// Where every answer says what is so, [`unique_path`] gives `p` if that is free,
/// else `p` with the smallest number from 1 to 9999 that makes it free, and `p` if
/// there is none.
pub proof fn law_unique_path_is_smallest<F: Fn(&RelPath) -> bool>(
    is_taken: F,
    taken: spec_fn(Seq<Seq<char>>) -> bool,
    p: Seq<Seq<char>>,
    r: Seq<Seq<char>>,
)
    requires
        forall|q: RelPath, b: bool| #[trigger]
            call_ensures(is_taken, (&q,), b) ==> b == taken(q@),
        first_free(is_taken, p, r),
    ensures
        !taken(p) ==> r == p,
        taken(p) ==> forall|n: nat|
            1 <= n <= 9999 && !taken(#[trigger] numbered_parts(p, n)) && (forall|m: nat|
                1 <= m < n ==> taken(#[trigger] numbered_parts(p, m))) ==> r == numbered_parts(p, n),
        taken(p) && (forall|n: nat| 1 <= n <= 9999 ==> taken(#[trigger] numbered_parts(p, n)))
            ==> r == p,
{
    if exists|n: nat|
        1 <= n < NAME_LIMIT && #[trigger] all_taken(is_taken, p, (n - 1) as nat) && answered(
            is_taken,
            numbered_parts(p, n),
            false,
        ) && r == numbered_parts(p, n) {
        let n = choose|n: nat|
            1 <= n < NAME_LIMIT && #[trigger] all_taken(is_taken, p, (n - 1) as nat) && answered(
                is_taken,
                numbered_parts(p, n),
                false,
            ) && r == numbered_parts(p, n);
        assert(!taken(numbered_parts(p, n)));
        assert forall|m: nat| 1 <= m < n implies taken(#[trigger] numbered_parts(p, m)) by {
            assert(m <= n - 1);
            assert(answered(is_taken, numbered_parts(p, m), true));
        }
        assert forall|k: nat|
            1 <= k <= 9999 && !taken(#[trigger] numbered_parts(p, k)) && (forall|m: nat|
                1 <= m < k ==> taken(#[trigger] numbered_parts(p, m))) implies r == numbered_parts(
            p,
            k,
        ) by {
            if n < k {
                assert(taken(numbered_parts(p, n)));
            }
        }
    } else if all_taken(is_taken, p, (NAME_LIMIT - 1) as nat) {
        assert forall|n: nat| 1 <= n <= 9999 implies taken(#[trigger] numbered_parts(p, n)) by {
            assert(answered(is_taken, numbered_parts(p, n), true));
        }
    }
}

/// The first path that is free: `p` itself, or `p` with the smallest number
/// from 1 on in its last name. Where every number below [`NAME_LIMIT`] is
/// taken, it is `p` after all.
pub fn unique_path<F: Fn(&RelPath) -> bool>(p: &RelPath, is_taken: F) -> (r: RelPath)
    requires
        forall|q: &RelPath| call_requires(is_taken, (q,)),
    ensures
        valid_parts(r@),
        first_free(is_taken, p@, r@),
{
    proof {
        use_type_invariant(p);
    }
    if !is_taken(p) {
        return p.clone();
    }
    let mut i: u64 = 1;
    while i < NAME_LIMIT
        invariant
            1 <= i <= NAME_LIMIT,
            valid_parts(p@),
            forall|q: &RelPath| call_requires(is_taken, (q,)),
            all_taken(is_taken, p@, (i - 1) as nat),
        decreases NAME_LIMIT - i,
    {
        let cand = p.numbered(i);
        if !is_taken(&cand) {
            return cand;
        }
        proof {
            assert(answered(is_taken, numbered_parts(p@, i as nat), true));
            assert forall|m: nat| 1 <= m <= i implies answered(
                is_taken,
                #[trigger] numbered_parts(p@, m),
                true,
            ) by {
                if m < i {
                    assert(m <= i - 1);
                }
            }
        }
        i = i + 1;
    }
    p.clone()
}

/// Takes the sender's root folder off a path: `root/x/y` becomes `x/y`, and a
/// path without a separator stays as it is. Backslashes become slashes.
pub fn strip_root(rel: &str) -> (r: String)
    ensures
        r@ == stripped(rel@),
{
    let v = chars_of(rel);
    let ghost all = slashed(rel@);
    let mut first: usize = 0;
    while first < v.len() && v[first] != '/' && v[first] != '\\'
        invariant
            v@ == rel@,
            first <= v.len(),
            forall|j: int| 0 <= j < first ==> !is_separator(#[trigger] v@[j]),
        decreases v.len() - first,
    {
        first = first + 1;
    }
    let from: usize = if first < v.len() {
        first + 1
    } else {
        0
    };
    proof {
        all.index_of_first_ensures('/');
        if first < v.len() {
            assert(all[first as int] == '/');
            assert(all.contains('/'));
            let i = all.index_of_first('/')->0;
            assert(i <= first);
            if i < first {
                assert(!is_separator(v@[i]));
            }
        } else if all.contains('/') {
            let i = choose|i: int| 0 <= i < all.len() && all[i] == '/';
            assert(!is_separator(v@[i]));
        }
    }
    let mut out = String::new();
    let mut i: usize = from;
    proof {
        assert(all.subrange(from as int, from as int) =~= Seq::<char>::empty());
    }
    while i < v.len()
        invariant
            v@ == rel@,
            all == slashed(rel@),
            from <= i <= v.len(),
            out@ == all.subrange(from as int, i as int),
        decreases v.len() - i,
    {
        let c = v[i];
        out.push(if c == '\\' { '/' } else { c });
        proof {
            assert(all.subrange(from as int, i + 1) =~= all.subrange(from as int, i as int).push(
                all[i as int],
            ));
        }
        i = i + 1;
    }
    proof {
        assert(all.subrange(from as int, all.len() as int) =~= all.skip(from as int));
        assert(all.skip(0) =~= all);
    }
    out
}

/// The texts behind strings and vectors are theirs, one for each.
pub proof fn law_texts_one_for_each(v: Seq<String>, w: Seq<Vec<char>>, i: int)
    ensures
        texts(v).len() == v.len(),
        runs(w).len() == w.len(),
        0 <= i < v.len() ==> texts(v)[i] == v[i]@,
        0 <= i < w.len() ==> runs(w)[i] == w[i]@,
{
}

} // verus!
