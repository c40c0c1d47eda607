//! A name joined to a directory of this device, as its platform writes it.

use vstd::prelude::*;
use vstd::string::*;
use crate::text::chars_of;

verus! {

/// Whether a text starts with a drive: `C:`, say.
pub open spec fn starts_with_drive(s: Seq<char>) -> bool {
    &&& s.len() >= 2
    &&& 'a' <= s[0] <= 'z' || 'A' <= s[0] <= 'Z'
    &&& s[1] == ':'
}

/// Whether a directory is a drive alone, where drives are.
pub open spec fn is_drive(dir: Seq<char>, sep: char) -> bool {
    sep == '\\' && dir.len() == 2 && starts_with_drive(dir)
}

/// Whether a directory is given in the verbatim form, where there is one: it
/// starts with `\\?\`, and only backslashes separate its parts.
pub open spec fn is_verbatim(dir: Seq<char>, sep: char) -> bool {
    sep == '\\' && dir.len() >= 4 && dir[0] == '\\' && dir[1] == '\\' && dir[2] == '?' && dir[3]
        == '\\'
}

/// Where the first backslash from `i` on stands, or the end of the text.
pub open spec fn next_backslash(s: Seq<char>, i: int) -> int
    decreases s.len() - i,
{
    if i >= s.len() {
        s.len() as int
    } else if s[i] == '\\' {
        i
    } else {
        next_backslash(s, i + 1)
    }
}

/// Whether a verbatim directory is a share: `\\?\UNC\` comes before its server.
pub open spec fn is_verbatim_share(dir: Seq<char>) -> bool {
    dir.len() >= 8 && dir[4] == 'U' && dir[5] == 'N' && dir[6] == 'C' && (dir[7] == '\\' || dir[7]
        == '/')
}

/// Whether a verbatim directory is on a drive.
pub open spec fn is_verbatim_drive(dir: Seq<char>) -> bool {
    starts_with_drive(dir.skip(4)) && (dir.len() == 6 || dir[6] == '\\' || dir[6] == '/')
}

/// Where the prefix of a verbatim directory ends, which names a share with its
/// server, a drive, or anything else up to the next backslash.
pub open spec fn prefix_end(dir: Seq<char>) -> int {
    if is_verbatim_share(dir) {
        let server = next_backslash(dir, 8);
        let share = next_backslash(dir, server + 1);
        if share > server + 1 {
            share
        } else {
            server
        }
    } else if is_verbatim_drive(dir) {
        6
    } else {
        next_backslash(dir, 4)
    }
}

/// `s` behind `head`, but without a backslash that would stand right behind
/// another one.
pub open spec fn behind(head: Seq<char>, s: Seq<char>) -> Seq<char>
    decreases s.len(),
{
    if s.len() == 0 {
        head
    } else {
        let before = behind(head, s.drop_last());
        if s.last() == '\\' && before.len() > 0 && before.last() == '\\' {
            before
        } else {
            before.push(s.last())
        }
    }
}

/// A verbatim directory, ready for a name: its prefix, and then each of its parts
/// between two backslashes.
pub open spec fn verbatim_dir(dir: Seq<char>) -> Seq<char> {
    let end = prefix_end(dir);
    let rest = if end < dir.len() {
        dir.skip(end + 1)
    } else {
        Seq::empty()
    };
    behind(dir.take(end).push('\\'), rest.push('\\'))
}

/// `name` joined to a directory: a separator goes between them unless the
/// directory is empty, ends in one, or is a drive alone. A verbatim directory
/// loses the backslashes that stand next to another one behind its prefix.
pub open spec fn joined_to(dir: Seq<char>, sep: char, name: Seq<char>) -> Seq<char> {
    if is_verbatim(dir, sep) {
        verbatim_dir(dir) + name
    } else if dir.len() == 0 || dir.last() == '/' || dir.last() == sep || is_drive(dir, sep) {
        dir + name
    } else {
        dir.push(sep) + name
    }
}

proof fn lemma_next_backslash(s: Seq<char>, i: int)
    requires
        0 <= i,
    ensures
        i <= s.len() ==> i <= next_backslash(s, i) <= s.len(),
        i > s.len() ==> next_backslash(s, i) == s.len(),
    decreases s.len() - i,
{
    if i < s.len() {
        lemma_next_backslash(s, i + 1);
    }
}

fn find_backslash(v: &Vec<char>, from: usize) -> (r: usize)
    requires
        from <= v.len(),
    ensures
        r == next_backslash(v@, from as int),
        from <= r <= v.len(),
{
    let mut i: usize = from;
    while i < v.len() && v[i] != '\\'
        invariant
            from <= i <= v.len(),
            next_backslash(v@, from as int) == next_backslash(v@, i as int),
        decreases v.len() - i,
    {
        i = i + 1;
    }
    i
}

fn has_drive_at(v: &Vec<char>, i: usize) -> (r: bool)
    requires
        i <= v.len(),
    ensures
        r == starts_with_drive(v@.skip(i as int)),
{
    v.len() - i >= 2 && ('a' <= v[i] && v[i] <= 'z' || 'A' <= v[i] && v[i] <= 'Z') && v[i + 1] == ':'
}

fn find_prefix_end(v: &Vec<char>) -> (r: usize)
    requires
        v.len() >= 4,
    ensures
        r == prefix_end(v@),
        4 <= r <= v.len(),
{
    if v.len() >= 8 && v[4] == 'U' && v[5] == 'N' && v[6] == 'C' && (v[7] == '\\' || v[7] == '/') {
        let server = find_backslash(v, 8);
        if server == v.len() {
            proof {
                lemma_next_backslash(v@, server + 1);
            }
            return server;
        }
        let share = find_backslash(v, server + 1);
        if share > server + 1 {
            share
        } else {
            server
        }
    } else if has_drive_at(v, 4) && (v.len() == 6 || v[6] == '\\' || v[6] == '/') {
        6
    } else {
        find_backslash(v, 4)
    }
}

fn write_verbatim(v: &Vec<char>) -> (r: String)
    requires
        v.len() >= 4,
    ensures
        r@ == verbatim_dir(v@),
{
    let end = find_prefix_end(v);
    let mut text = String::new();
    let mut i: usize = 0;
    while i < end
        invariant
            i <= end <= v.len(),
            text@ == v@.take(i as int),
        decreases end - i,
    {
        text.push(v[i]);
        proof {
            assert(v@.take(i + 1) =~= v@.take(i as int).push(v@[i as int]));
        }
        i = i + 1;
    }
    text.push('\\');
    let ghost head = v@.take(end as int).push('\\');
    let ghost rest = if end < v@.len() {
        v@.skip(end + 1)
    } else {
        Seq::empty()
    };
    let mut slash = true;
    let from: usize = if end < v.len() {
        end + 1
    } else {
        end
    };
    let mut j: usize = from;
    proof {
        assert(rest.take(0) =~= Seq::<char>::empty());
    }
    while j < v.len()
        invariant
            from <= j <= v.len(),
            from <= v.len(),
            rest == v@.skip(from as int),
            text@ == behind(head, rest.take(j - from)),
            text@.len() > 0,
            slash == (text@.last() == '\\'),
        decreases v.len() - j,
    {
        let c = v[j];
        proof {
            assert(rest.take(j + 1 - from).drop_last() =~= rest.take(j - from));
            assert(rest.take(j + 1 - from).last() == c);
        }
        if !(c == '\\' && slash) {
            text.push(c);
            slash = c == '\\';
        }
        j = j + 1;
    }
    proof {
        assert(rest.take(rest.len() as int) =~= rest);
        assert(rest.push('\\').drop_last() =~= rest);
    }
    if !slash {
        text.push('\\');
    }
    text
}

/// Joins a name to a directory, on a platform whose separator is `sep`.
pub fn join_name(dir: &str, sep: char, name: &str) -> (r: String)
    ensures
        r@ == joined_to(dir@, sep, name@),
{
    let v = chars_of(dir);
    let mut text: String;
    if sep == '\\' && v.len() >= 4 && v[0] == '\\' && v[1] == '\\' && v[2] == '?' && v[3] == '\\' {
        text = write_verbatim(&v);
    } else {
        text = dir.to_owned();
        proof {
            assert(v@.skip(0) =~= v@);
        }
        let drive = sep == '\\' && v.len() == 2 && has_drive_at(&v, 0);
        if v.len() > 0 && v[v.len() - 1] != '/' && v[v.len() - 1] != sep && !drive {
            text.push(sep);
        }
    }
    text.append(name);
    text
}

/// What is joined to a directory stands at the end, as it is.
pub proof fn law_join_ends_in_name(dir: Seq<char>, sep: char, name: Seq<char>)
    ensures
        joined_to(dir, sep, name).len() >= name.len(),
        joined_to(dir, sep, name).skip(joined_to(dir, sep, name).len() - name.len()) == name,
{
    let r = joined_to(dir, sep, name);
    assert(r.skip(r.len() - name.len()) =~= name);
}

/// A directory that is not verbatim stays as it is. One separator goes between it
/// and the name, but none behind one that is there, behind a slash, behind nothing
/// or, where backslashes separate, behind a letter and a colon alone.
pub proof fn law_join_plain(dir: Seq<char>, sep: char, name: Seq<char>, letter: char)
    requires
        sep == '/' || dir.len() < 4 || dir.take(4) != seq!['\\', '\\', '?', '\\'],
    ensures
        dir.len() == 0 ==> joined_to(dir, sep, name) == name,
        dir.len() > 0 && (dir.last() == sep || dir.last() == '/') ==> joined_to(dir, sep, name) == dir
            + name,
        dir.len() > 0 && dir.last() != sep && dir.last() != '/' && (sep == '/' || dir.last() != ':'
            || dir.len() != 2) ==> joined_to(dir, sep, name) == dir.push(sep) + name,
        ('a' <= letter <= 'z' || 'A' <= letter <= 'Z') ==> joined_to(seq![letter, ':'], '\\', name)
            == seq![letter, ':'] + name,
{
    if dir.len() == 0 {
        assert(dir + name =~= name);
    }
    if dir.len() >= 4 && sep != '/' {
        assert(dir.take(4) =~= seq![dir[0], dir[1], dir[2], dir[3]]);
    }
}

proof fn lemma_behind_tidy(head: Seq<char>, x: Seq<char>)
    requires
        head.len() > 0,
        head.last() == '\\',
        x.len() > 0 ==> x[0] != '\\',
        forall|i: int| 0 < i < x.len() ==> x[i - 1] != '\\' || #[trigger] x[i] != '\\',
    ensures
        behind(head, x) == head + x,
    decreases x.len(),
{
    if x.len() == 0 {
        assert(head + x =~= head);
    } else {
        let init = x.drop_last();
        assert forall|i: int| 0 < i < init.len() implies init[i - 1] != '\\' || #[trigger] init[i]
            != '\\' by {
            assert(x[i - 1] != '\\' || x[i] != '\\');
        }
        lemma_behind_tidy(head, init);
        if x.last() == '\\' && init.len() > 0 {
            let k = x.len() - 1;
            assert(x[k - 1] != '\\' || x[k] != '\\');
            assert((head + init).last() == x[k - 1]);
        }
        assert((head + init).push(x.last()) =~= head + x);
    }
}

proof fn lemma_behind_repeats(head: Seq<char>, x: Seq<char>, y: Seq<char>)
    requires
        head.len() > 0,
        head.last() == '\\',
    ensures
        behind(head, x.push('\\').push('\\') + y) == behind(head, x.push('\\') + y),
        behind(head, x.push('\\')).len() > 0,
        behind(head, x.push('\\')).last() == '\\',
    decreases y.len(),
{
    let one = x.push('\\');
    assert(one.drop_last() =~= x);
    if y.len() == 0 {
        assert(one.push('\\') + y =~= one.push('\\'));
        assert(one + y =~= one);
        assert(one.push('\\').drop_last() =~= one);
    } else {
        lemma_behind_repeats(head, x, y.drop_last());
        assert((one.push('\\') + y).drop_last() =~= one.push('\\') + y.drop_last());
        assert((one + y).drop_last() =~= one + y.drop_last());
    }
}

/// Whether a text is what a verbatim directory starts with: `\\\\?\\` and a drive,
/// a name without a backslash, or `UNC`, a server and a share.
pub open spec fn verbatim_root(p: Seq<char>, server: Seq<char>, share: Seq<char>) -> bool {
    &&& forall|i: int| 0 <= i < server.len() ==> #[trigger] server[i] != '\\'
    &&& forall|i: int| 0 <= i < share.len() ==> #[trigger] share[i] != '\\'
    &&& {
        ||| p == seq!['\\', '\\', '?', '\\', 'U', 'N', 'C', '\\'] + server + seq!['\\'] + share
            && share.len() > 0
        ||| p == seq!['\\', '\\', '?', '\\'] + server && !(server.len() >= 4 && server[0] == 'U'
            && server[1] == 'N' && server[2] == 'C' && server[3] == '/') && !(server.len() >= 3
            && server[1] == ':' && server[2] == '/') && !(server.len() == 3 && server[0] == 'U'
            && server[1] == 'N' && server[2] == 'C')
    }
}

proof fn lemma_next_at(s: Seq<char>, i: int, k: int)
    requires
        0 <= i <= k <= s.len(),
        forall|j: int| i <= j < k ==> #[trigger] s[j] != '\\',
        k < s.len() ==> s[k] == '\\',
    ensures
        next_backslash(s, i) == k,
    decreases k - i,
{
    if i < k {
        assert(s[i] != '\\');
        lemma_next_at(s, i + 1, k);
    }
}

proof fn lemma_root_end(p: Seq<char>, server: Seq<char>, share: Seq<char>, x: Seq<char>)
    requires
        verbatim_root(p, server, share),
        x.len() > 0 ==> x[0] == '\\',
    ensures
        is_verbatim(p + x, '\\'),
        prefix_end(p + x) == p.len(),
{
    let d = p + x;
    let unc = seq!['\\', '\\', '?', '\\', 'U', 'N', 'C', '\\'];
    if p == unc + server + seq!['\\'] + share && share.len() > 0 {
        let a = 8 + server.len() as int;
        assert forall|j: int| 8 <= j < a implies #[trigger] d[j] != '\\' by {
            assert(d[j] == server[j - 8]);
        }
        assert(d[a] == '\\');
        lemma_next_at(d, 8, a);
        assert forall|j: int| a + 1 <= j < p.len() implies #[trigger] d[j] != '\\' by {
            assert(d[j] == share[j - a - 1]);
        }
        lemma_next_at(d, a + 1, p.len() as int);
        assert(d[4] == 'U' && d[5] == 'N' && d[6] == 'C' && d[7] == '\\');
    } else {
        let v = seq!['\\', '\\', '?', '\\'];
        assert(p == v + server);
        assert(d[0] == '\\' && d[1] == '\\' && d[2] == '?' && d[3] == '\\');
        assert forall|j: int| 4 <= j < p.len() implies #[trigger] d[j] != '\\' && d[j] == server[j - 4] by {
            assert(d[j] == server[j - 4]);
        }
        lemma_next_at(d, 4, p.len() as int);
        assert(p.len() == 4 + server.len());
        if is_verbatim_share(d) {
            assert(server.len() >= 3);
            assert(server[0] == 'U' && server[1] == 'N' && server[2] == 'C');
            if server.len() >= 4 {
                assert(d[7] == server[3]);
            }
            assert(false);
        }
        if is_verbatim_drive(d) {
            assert(d.skip(4)[0] == d[4] && d.skip(4)[1] == d[5]);
            if server.len() == 0 {
                assert(d[4] == '\\');
            } else if server.len() == 1 {
                assert(d[5] == '\\');
            } else if server.len() >= 3 {
                assert(d[6] == server[2]);
            }
        }
    }
}

/// A verbatim directory keeps what it starts with, and each of its parts. A
/// backslash goes between the last of them and the name, and where several stand
/// next to each other one is left.
pub proof fn law_join_verbatim(
    p: Seq<char>,
    server: Seq<char>,
    share: Seq<char>,
    x: Seq<char>,
    y: Seq<char>,
    name: Seq<char>,
)
    requires
        verbatim_root(p, server, share),
    ensures
        joined_to(p, '\\', name) == p.push('\\') + name,
        x.len() > 0 && x[0] != '\\' && x.last() != '\\' && (forall|i: int|
            0 < i < x.len() ==> x[i - 1] != '\\' || #[trigger] x[i] != '\\') ==> joined_to(
            p.push('\\') + x,
            '\\',
            name,
        ) == p.push('\\') + x + seq!['\\'] + name,
        joined_to(p.push('\\') + (x.push('\\').push('\\') + y), '\\', name) == joined_to(
            p.push('\\') + (x.push('\\') + y),
            '\\',
            name,
        ),
        joined_to(p.push('\\') + x.push('\\'), '\\', name) == joined_to(p.push('\\') + x, '\\', name),
        joined_to(p.push('\\').push('\\') + x, '\\', name) == joined_to(p.push('\\') + x, '\\', name),
{
    let head = p.push('\\');
    lemma_root_end(p, server, share, Seq::empty());
    assert(p + Seq::<char>::empty() =~= p);
    assert(p.take(p.len() as int) =~= p);
    lemma_behind_tidy(head, Seq::empty());
    let none = Seq::<char>::empty();
    assert(none.push('\\').drop_last() =~= none);
    assert(behind(head, none.push('\\')) == head);
    lemma_verbatim_dir(p, server, share, x);
    lemma_verbatim_dir(p, server, share, x.push('\\').push('\\') + y);
    lemma_verbatim_dir(p, server, share, x.push('\\') + y);
    lemma_verbatim_dir(p, server, share, x.push('\\'));
    lemma_verbatim_dir(p, server, share, seq!['\\'] + x);
    lemma_behind_repeats(head, x, y.push('\\'));
    assert((x.push('\\').push('\\') + y).push('\\') =~= x.push('\\').push('\\') + y.push('\\'));
    assert((x.push('\\') + y).push('\\') =~= x.push('\\') + y.push('\\'));
    lemma_behind_repeats(head, x, none);
    assert(x.push('\\').push('\\') + none =~= x.push('\\').push('\\'));
    assert(x.push('\\') + none =~= x.push('\\'));
    assert(head.push('\\') + x =~= head + (seq!['\\'] + x));
    lemma_behind_leading(head, x.push('\\'));
    assert((seq!['\\'] + x).push('\\') =~= seq!['\\'] + x.push('\\'));
    if x.len() > 0 && x[0] != '\\' && x.last() != '\\' && (forall|i: int|
        0 < i < x.len() ==> x[i - 1] != '\\' || #[trigger] x[i] != '\\') {
        let z = x.push('\\');
        assert forall|i: int| 0 < i < z.len() implies z[i - 1] != '\\' || #[trigger] z[i] != '\\' by {
            if i < x.len() {
                assert(x[i - 1] != '\\' || x[i] != '\\');
            }
        }
        lemma_behind_tidy(head, z);
        assert(head + z + name =~= head + x + seq!['\\'] + name);
    }
}

proof fn lemma_behind_leading(head: Seq<char>, x: Seq<char>)
    requires
        head.len() > 0,
        head.last() == '\\',
    ensures
        behind(head, seq!['\\'] + x) == behind(head, x),
    decreases x.len(),
{
    if x.len() == 0 {
        assert(seq!['\\'] + x =~= seq!['\\']);
        assert(seq!['\\'].drop_last() =~= Seq::<char>::empty());
        assert(behind(head, Seq::empty()) == head);
        assert(x =~= Seq::<char>::empty());
    } else {
        lemma_behind_leading(head, x.drop_last());
        assert((seq!['\\'] + x).drop_last() =~= seq!['\\'] + x.drop_last());
    }
}

proof fn lemma_verbatim_dir(p: Seq<char>, server: Seq<char>, share: Seq<char>, x: Seq<char>)
    requires
        verbatim_root(p, server, share),
    ensures
        is_verbatim(p.push('\\') + x, '\\'),
        verbatim_dir(p.push('\\') + x) == behind(p.push('\\'), x.push('\\')),
{
    let d = p.push('\\') + x;
    assert(d =~= p + (seq!['\\'] + x));
    lemma_root_end(p, server, share, seq!['\\'] + x);
    assert(d.take(p.len() as int) =~= p);
    assert(d.skip(p.len() as int + 1) =~= x);
}

} // verus!
