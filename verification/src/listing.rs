//! What a folder or a file looks like to a peer before it is sent.

use vstd::prelude::*;
use vstd::string::*;
use vstd::multiset::Multiset;
use crate::path::{is_separator, law_strip_root_undoes_prefix, sanitized, slashed, stripped};
use crate::session::{law_root_maps_to_place, opt_view, Place};
use crate::sort::{
    insert_ranked, law_sort_permutes, law_stable_sorted, stable_sort, stable_sorted, Ranked,
};

verus! {

/// What an item of a directory is.
pub enum ItemKind {
    /// A directory, with what is in it; nothing where it cannot be read.
    Dir(Vec<DirItem>),
    /// A file, and when it was changed, in milliseconds since 1970, if the
    /// system says so.
    File { size: u64, mtime: Option<u128> },
    /// Anything else.
    Other,
}

/// An item of a directory.
pub struct DirItem {
    /// The name as the system orders it, byte by byte.
    pub key: Vec<u8>,
    /// The name as text.
    pub name: String,
    /// Where the item is.
    pub path: String,
    pub kind: ItemKind,
}

/// A file of a folder that is sent.
pub struct DirEntryOut {
    pub path: String,
    pub rel: String,
    pub size: u64,
    pub mtime: u64,
}

/// A file of a folder, with texts as sequences of characters.
pub struct Listed {
    pub path: Seq<char>,
    pub rel: Seq<char>,
    pub size: u64,
    pub mtime: u64,
}

impl View for DirEntryOut {
    type V = Listed;

    open spec fn view(&self) -> Listed {
        Listed { path: self.path@, rel: self.rel@, size: self.size, mtime: self.mtime }
    }
}

/// A time as it is told: in 64 bits, and zero where there is none.
pub open spec fn told_time(mtime: Option<u128>) -> u64 {
    match mtime {
        Some(t) => (t as int % 0x1_0000_0000_0000_0000) as u64,
        None => 0,
    }
}

/// A time as it is told: in 64 bits, and zero where there is none.
fn tell_time(mtime: Option<u128>) -> (r: u64)
    ensures
        r == told_time(mtime),
{
    match mtime {
        Some(t) => (t % 0x1_0000_0000_0000_0000) as u64,
        None => 0,
    }
}

/// The path of an item below `prefix`.
pub open spec fn below(prefix: Seq<char>, name: Seq<char>) -> Seq<char> {
    if prefix.len() == 0 {
        name
    } else {
        prefix.push('/') + name
    }
}

/// Whether `a` is `b` or comes before it: byte by byte, and a shorter name
/// before a longer one that starts with it.
pub open spec fn bytes_leq(a: Seq<u8>, b: Seq<u8>) -> bool
    decreases a.len(),
{
    if a.len() == 0 {
        true
    } else if b.len() == 0 {
        false
    } else if a[0] != b[0] {
        a[0] < b[0]
    } else {
        bytes_leq(a.drop_first(), b.drop_first())
    }
}

proof fn lemma_bytes_total(a: Seq<u8>, b: Seq<u8>)
    ensures
        bytes_leq(a, b) || bytes_leq(b, a),
    decreases a.len(),
{
    if a.len() > 0 && b.len() > 0 && a[0] == b[0] {
        lemma_bytes_total(a.drop_first(), b.drop_first());
    }
}

proof fn lemma_bytes_transitive(a: Seq<u8>, b: Seq<u8>, c: Seq<u8>)
    requires
        bytes_leq(a, b),
        bytes_leq(b, c),
    ensures
        bytes_leq(a, c),
    decreases a.len(),
{
    if a.len() > 0 && b.len() > 0 && c.len() > 0 && a[0] == b[0] && b[0] == c[0] {
        lemma_bytes_transitive(a.drop_first(), b.drop_first(), c.drop_first());
    }
}

/// An item's name, and where the item stands among the others.
pub struct Named<'a> {
    pub key: &'a Vec<u8>,
    pub at: usize,
}

impl<'a> Ranked for Named<'a> {
    open spec fn leq(&self, other: &Self) -> bool {
        bytes_leq(self.key@, other.key@)
    }

    proof fn leq_total(a: &Self, b: &Self) {
        lemma_bytes_total(a.key@, b.key@);
    }

    proof fn leq_transitive(a: &Self, b: &Self, c: &Self) {
        lemma_bytes_transitive(a.key@, b.key@, c.key@);
    }

    fn may_precede(&self, other: &Self) -> (r: bool) {
        let a = self.key;
        let b = other.key;
        let mut i: usize = 0;
        proof {
            assert(a@.skip(0) =~= a@);
            assert(b@.skip(0) =~= b@);
        }
        while i < a.len()
            invariant
                a == self.key,
                b == other.key,
                i <= a.len(),
                i <= b.len(),
                bytes_leq(a@, b@) == bytes_leq(a@.skip(i as int), b@.skip(i as int)),
            decreases a.len() - i,
        {
            if i == b.len() {
                return false;
            }
            if a[i] != b[i] {
                return a[i] < b[i];
            }
            proof {
                assert(a@.skip(i as int).drop_first() =~= a@.skip(i + 1));
                assert(b@.skip(i as int).drop_first() =~= b@.skip(i + 1));
            }
            i = i + 1;
        }
        true
    }
}

/// The items of a directory by name.
pub open spec fn name_order(items: Seq<DirItem>) -> Seq<Named<'static>> {
    stable_sorted(names(items))
}

/// The names of the items, in the order in which the system gave them.
pub open spec fn names(items: Seq<DirItem>) -> Seq<Named<'static>> {
    Seq::new(items.len(), |i: int| Named { key: &items[i].key, at: i as usize })
}

/// What the first `n` items of an order list.
pub open spec fn walked_in(
    items: Seq<DirItem>,
    order: Seq<Named<'static>>,
    n: nat,
    prefix: Seq<char>,
) -> Seq<Listed>
    decreases items, n,
{
    if n == 0 || n > order.len() {
        Seq::empty()
    } else {
        let at = order[n - 1].at as int;
        let before = walked_in(items, order, (n - 1) as nat, prefix);
        if at < items.len() {
            let item = items[at];
            before + (match item.kind {
                ItemKind::Dir(sub) => walked_in(
                    sub@,
                    name_order(sub@),
                    name_order(sub@).len(),
                    below(prefix, item.name@),
                ),
                ItemKind::File { size, mtime } => seq![
                    Listed {
                        path: item.path@,
                        rel: below(prefix, item.name@),
                        size,
                        mtime: told_time(mtime),
                    },
                ],
                ItemKind::Other => Seq::empty(),
            })
        } else {
            before
        }
    }
}

/// The files in a directory and below it, each directory by name.
pub open spec fn walked(items: Seq<DirItem>, prefix: Seq<char>) -> Seq<Listed> {
    walked_in(items, name_order(items), name_order(items).len(), prefix)
}

/// Whether a path lies below `prefix`.
pub open spec fn starts_below(rel: Seq<char>, prefix: Seq<char>) -> bool {
    rel.len() > prefix.len() && rel.take(prefix.len() as int + 1) == prefix.push('/')
}

proof fn lemma_walked_below(
    items: Seq<DirItem>,
    order: Seq<Named<'static>>,
    n: nat,
    prefix: Seq<char>,
    k: int,
)
    requires
        prefix.len() > 0,
        0 <= k < walked_in(items, order, n, prefix).len(),
    ensures
        starts_below(walked_in(items, order, n, prefix)[k].rel, prefix),
    decreases items, n,
{
    let all = walked_in(items, order, n, prefix);
    let before = walked_in(items, order, (n - 1) as nat, prefix);
    if k < before.len() {
        lemma_walked_below(items, order, (n - 1) as nat, prefix, k);
        assert(all[k] == before[k]);
    } else {
        let item = items[order[n - 1].at as int];
        let inner = below(prefix, item.name@);
        assert(inner.take(prefix.len() as int + 1) =~= prefix.push('/'));
        match item.kind {
            ItemKind::Dir(sub) => {
                let o = name_order(sub@);
                let j = k - before.len();
                lemma_walked_below(sub@, o, o.len(), inner, j);
                let rel = walked_in(sub@, o, o.len(), inner)[j].rel;
                assert(all[k].rel == rel);
                assert(rel.take(prefix.len() as int + 1) =~= rel.take(inner.len() as int + 1).take(
                    prefix.len() as int + 1,
                ));
                assert(inner.push('/').take(prefix.len() as int + 1) =~= inner.take(prefix.len() as int + 1));
            },
            _ => {},
        }
    }
}

/// Every file of a folder is listed below the folder's name.
pub proof fn law_listed_below_root(items: Seq<DirItem>, root: Seq<char>, k: int)
    requires
        root.len() > 0,
        0 <= k < walked(items, root).len(),
    ensures
        starts_below(walked(items, root)[k].rel, root),
{
    lemma_walked_below(items, name_order(items), name_order(items).len(), root, k);
}

proof fn lemma_rel_split(items: Seq<DirItem>, root: Seq<char>, k: int)
    requires
        root.len() > 0,
        0 <= k < walked(items, root).len(),
    ensures
        walked(items, root)[k].rel == root.push('/') + walked(items, root)[k].rel.skip(
            root.len() as int + 1,
        ),
{
    law_listed_below_root(items, root, k);
    let rel = walked(items, root)[k].rel;
    let rest = rel.skip(root.len() as int + 1);
    assert(rel =~= rel.take(root.len() as int + 1) + rest);
}

/// The receiver gets each file's path as it is below the folder: what is
/// stripped off on the way is the folder's name and nothing else.
pub proof fn law_listed_then_stripped(items: Seq<DirItem>, root: Seq<char>, k: int)
    requires
        root.len() > 0,
        forall|i: int| 0 <= i < root.len() ==> !is_separator(#[trigger] root[i]),
        0 <= k < walked(items, root).len(),
    ensures
        stripped(walked(items, root)[k].rel) == slashed(
            walked(items, root)[k].rel.skip(root.len() as int + 1),
        ),
{
    lemma_rel_split(items, root, k);
    let rest = walked(items, root)[k].rel.skip(root.len() as int + 1);
    law_strip_root_undoes_prefix(root, '/', rest);
}

/// A folder arrives as it is: the receiver puts each listed file where its path
/// below the sender's folder leads from the receiver's.
pub proof fn law_folder_arrives(items: Seq<DirItem>, root: Seq<char>, k: int, place: Place)
    requires
        root.len() > 0,
        forall|i: int| 0 <= i < root.len() ==> !is_separator(#[trigger] root[i]),
        0 <= k < walked(items, root).len(),
        !place.to_file(),
    ensures
        place.target(stripped(walked(items, root)[k].rel)) == (match sanitized(
            walked(items, root)[k].rel.skip(root.len() as int + 1),
        ) {
            Ok(p) => Ok::<Seq<Seq<char>>, Seq<char>>(place.parts() + p),
            Err(e) => Err(e),
        }),
{
    lemma_rel_split(items, root, k);
    let rest = walked(items, root)[k].rel.skip(root.len() as int + 1);
    law_root_maps_to_place(place, root, '/', rest);
}

/// What one item of a directory lists.
pub open spec fn item_listing(item: DirItem, prefix: Seq<char>) -> Seq<Listed> {
    match item.kind {
        ItemKind::Dir(sub) => walked(sub@, below(prefix, item.name@)),
        ItemKind::File { size, mtime } => seq![
            Listed {
                path: item.path@,
                rel: below(prefix, item.name@),
                size,
                mtime: told_time(mtime),
            },
        ],
        ItemKind::Other => Seq::empty(),
    }
}

proof fn lemma_walked_holds(
    items: Seq<DirItem>,
    order: Seq<Named<'static>>,
    n: nat,
    prefix: Seq<char>,
    m: int,
    e: Listed,
)
    requires
        0 <= m < n <= order.len(),
        order[m].at < items.len(),
        item_listing(items[order[m].at as int], prefix).contains(e),
    ensures
        walked_in(items, order, n, prefix).contains(e),
    decreases n,
{
    let all = walked_in(items, order, n, prefix);
    let before = walked_in(items, order, (n - 1) as nat, prefix);
    if m == n - 1 {
        let part = item_listing(items[order[m].at as int], prefix);
        let k = choose|k: int| 0 <= k < part.len() && part[k] == e;
        assert(all[before.len() + k] == e);
    } else {
        lemma_walked_holds(items, order, (n - 1) as nat, prefix, m, e);
        let k = choose|k: int| 0 <= k < before.len() && before[k] == e;
        assert(all[k] == e);
    }
}

/// No file is left out: what any item of a directory lists is in the list of
/// the directory.
pub proof fn law_nothing_left_out(items: Seq<DirItem>, prefix: Seq<char>, i: int, e: Listed)
    requires
        0 <= i < items.len() <= usize::MAX,
        item_listing(items[i], prefix).contains(e),
    ensures
        walked(items, prefix).contains(e),
{
    let ns = names(items);
    let order = name_order(items);
    law_sort_permutes(ns);
    vstd::seq_lib::to_multiset_contains(ns, ns[i]);
    vstd::seq_lib::to_multiset_contains(order, ns[i]);
    assert(ns.contains(ns[i]));
    assert(order.contains(ns[i]));
    let m = choose|m: int| 0 <= m < order.len() && order[m] == ns[i];
    assert(order[m].at == i);
    lemma_walked_holds(items, order, order.len(), prefix, m, e);
}

/// The files of the first `n` items of a directory and below them, with nothing
/// said of their order.
pub open spec fn files_below(items: Seq<DirItem>, n: nat, prefix: Seq<char>) -> Multiset<Listed>
    decreases items, n,
{
    if n == 0 || n > items.len() {
        Multiset::empty()
    } else {
        let item = items[n - 1];
        files_below(items, (n - 1) as nat, prefix).add(
            match item.kind {
                ItemKind::Dir(sub) => files_below(
                    sub@,
                    sub@.len(),
                    below(prefix, item.name@),
                ),
                ItemKind::File { size, mtime } => Multiset::singleton(
                    Listed {
                        path: item.path@,
                        rel: below(prefix, item.name@),
                        size,
                        mtime: told_time(mtime),
                    },
                ),
                ItemKind::Other => Multiset::empty(),
            },
        )
    }
}

/// The files that the items of an order list, with nothing said of their order.
spec fn files_in(items: Seq<DirItem>, order: Seq<Named<'static>>, prefix: Seq<char>) -> Multiset<
    Listed,
>
    decreases order.len(),
{
    if order.len() == 0 {
        Multiset::empty()
    } else {
        files_in(items, order.drop_last(), prefix).add(
            item_files(items, order.last().at as int, prefix),
        )
    }
}

spec fn item_files(items: Seq<DirItem>, at: int, prefix: Seq<char>) -> Multiset<Listed> {
    if 0 <= at < items.len() {
        item_listing(items[at], prefix).to_multiset()
    } else {
        Multiset::empty()
    }
}

proof fn lemma_files_in_insert(
    items: Seq<DirItem>,
    order: Seq<Named<'static>>,
    x: Named<'static>,
    prefix: Seq<char>,
)
    ensures
        files_in(items, insert_ranked(order, x), prefix) == files_in(items, order, prefix).add(
            item_files(items, x.at as int, prefix),
        ),
    decreases order.len(),
{
    if order.len() == 0 || order.last().leq(&x) {
        assert(order.push(x).drop_last() =~= order);
    } else {
        let init = order.drop_last();
        lemma_files_in_insert(items, init, x, prefix);
        let q = insert_ranked(init, x);
        assert(q.push(order.last()).drop_last() =~= q);
        assert(files_in(items, insert_ranked(order, x), prefix) =~= files_in(items, order, prefix).add(
            item_files(items, x.at as int, prefix),
        ));
    }
}

proof fn lemma_files_in_sorted(items: Seq<DirItem>, order: Seq<Named<'static>>, prefix: Seq<char>)
    ensures
        files_in(items, stable_sorted(order), prefix) == files_in(items, order, prefix),
    decreases order.len(),
{
    if order.len() > 0 {
        lemma_files_in_sorted(items, order.drop_last(), prefix);
        lemma_files_in_insert(items, stable_sorted(order.drop_last()), order.last(), prefix);
    }
}

proof fn lemma_to_multiset_concat<A>(a: Seq<A>, b: Seq<A>)
    ensures
        (a + b).to_multiset() == a.to_multiset().add(b.to_multiset()),
    decreases b.len(),
{
    broadcast use vstd::seq_lib::to_multiset_build;

    if b.len() == 0 {
        assert(a + b =~= a);
        b.to_multiset_ensures();
        assert(a.to_multiset().add(b.to_multiset()) =~= a.to_multiset());
    } else {
        lemma_to_multiset_concat(a, b.drop_last());
        assert(a + b =~= (a + b.drop_last()).push(b.last()));
        assert(b =~= b.drop_last().push(b.last()));
        assert((a + b).to_multiset() =~= a.to_multiset().add(b.to_multiset()));
    }
}

proof fn lemma_walked_files(
    items: Seq<DirItem>,
    order: Seq<Named<'static>>,
    n: nat,
    prefix: Seq<char>,
)
    requires
        n <= order.len(),
    ensures
        walked_in(items, order, n, prefix).to_multiset() == files_in(
            items,
            order.take(n as int),
            prefix,
        ),
    decreases n,
{
    Seq::<Listed>::empty().to_multiset_ensures();
    if n == 0 {
        assert(Seq::<Listed>::empty().to_multiset() =~= Multiset::<Listed>::empty());
        assert(order.take(0).len() == 0);
    } else {
        let before = walked_in(items, order, (n - 1) as nat, prefix);
        lemma_walked_files(items, order, (n - 1) as nat, prefix);
        assert(order.take(n as int).drop_last() =~= order.take(n - 1));
        let at = order[n - 1].at as int;
        if at < items.len() {
            lemma_to_multiset_concat(before, item_listing(items[at], prefix));
        } else {
            assert(before.to_multiset().add(Multiset::empty()) =~= before.to_multiset());
        }
    }
}

proof fn lemma_files_below(items: Seq<DirItem>, n: nat, prefix: Seq<char>)
    requires
        n <= items.len() <= usize::MAX,
    ensures
        files_in(items, names(items).take(n as int), prefix) == files_below(items, n, prefix),
    decreases items, n, 0int,
{
    if n == 0 {
        assert(names(items).take(0).len() == 0);
    } else {
        let ns = names(items);
        let item = items[n - 1];
        lemma_files_below(items, (n - 1) as nat, prefix);
        assert(ns.take(n as int).drop_last() =~= ns.take(n - 1));
        assert(ns.take(n as int).last().at == n - 1);
        match item.kind {
            ItemKind::Dir(sub) => {
                assert(sub.len() <= usize::MAX);
                law_each_file_once(sub@, below(prefix, item.name@));
            },
            ItemKind::File { size, mtime } => {
                broadcast use vstd::seq_lib::to_multiset_build;

                let e = Listed {
                    path: item.path@,
                    rel: below(prefix, item.name@),
                    size,
                    mtime: told_time(mtime),
                };
                Seq::<Listed>::empty().to_multiset_ensures();
                assert(seq![e] =~= Seq::<Listed>::empty().push(e));
                assert(seq![e].to_multiset() =~= Multiset::singleton(e));
            },
            ItemKind::Other => {
                Seq::<Listed>::empty().to_multiset_ensures();
                assert(Seq::<Listed>::empty().to_multiset() =~= Multiset::<Listed>::empty());
            },
        }
    }
}

/// The list of a directory holds each file that is in it or below it, as often
/// as it is there, and nothing else.
pub proof fn law_each_file_once(items: Seq<DirItem>, prefix: Seq<char>)
    requires
        items.len() <= usize::MAX,
    ensures
        walked(items, prefix).to_multiset() == files_below(items, items.len(), prefix),
    decreases items, items.len(), 1int,
{
    let order = name_order(items);
    lemma_walked_files(items, order, order.len(), prefix);
    assert(order.take(order.len() as int) =~= order);
    lemma_files_in_sorted(items, names(items), prefix);
    lemma_files_below(items, items.len(), prefix);
    assert(names(items).take(items.len() as int) =~= names(items));
}

/// Whether a file lies where some names lead from a directory: each but the last
/// is that of a directory in the one before, and the last that of the file.
pub open spec fn lies_at(items: Seq<DirItem>, way: Seq<Seq<char>>, i: Seq<int>, file: Listed) -> bool
    decreases way.len(),
{
    &&& way.len() > 0
    &&& i.len() == way.len()
    &&& 0 <= i[0] < items.len()
    &&& items[i[0]].name@ == way[0]
    &&& match items[i[0]].kind {
        ItemKind::Dir(sub) => lies_at(sub@, way.drop_first(), i.drop_first(), file),
        ItemKind::File { size, mtime } => way.len() == 1 && file.path == items[i[0]].path@ && file.size
            == size && (mtime is None ==> file.mtime == 0) && (mtime is Some && mtime->0 <= u64::MAX
            ==> file.mtime == mtime->0) && (mtime is Some ==> file.mtime == mtime->0 as int
            % 18446744073709551616),
        ItemKind::Other => false,
    }
}

/// The names behind a prefix, with a slash before each.
pub open spec fn with_slashes(prefix: Seq<char>, way: Seq<Seq<char>>) -> Seq<char>
    decreases way.len(),
{
    if way.len() == 0 {
        prefix
    } else {
        with_slashes(prefix + seq!['/'] + way[0], way.drop_first())
    }
}

/// A file is listed with its own path, size and time, and the way to it: behind the
/// prefix, a slash and then a full name for each directory on the way and for the
/// file itself.
pub proof fn law_listed_with_the_way_to_it(
    items: Seq<DirItem>,
    prefix: Seq<char>,
    way: Seq<Seq<char>>,
    i: Seq<int>,
    file: Listed,
)
    requires
        items.len() <= usize::MAX,
        prefix.len() > 0,
        lies_at(items, way, i, file),
        file.rel == with_slashes(prefix, way),
    ensures
        walked(items, prefix).contains(file),
    decreases way.len(),
{
    let item = items[i[0]];
    let inner = prefix + seq!['/'] + way[0];
    assert(below(prefix, item.name@) =~= inner);
    match item.kind {
        ItemKind::Dir(sub) => {
            assert(sub.len() <= usize::MAX);
            law_listed_with_the_way_to_it(sub@, inner, way.drop_first(), i.drop_first(), file);
        },
        ItemKind::File { size, mtime } => {
            assert(way.drop_first().len() == 0);
            assert(with_slashes(inner, way.drop_first()) == inner);
            let e = item_listing(item, prefix)[0];
            assert(e == file);
        },
        ItemKind::Other => {},
    }
    assert(item_listing(items[i[0]], prefix).contains(file));
    law_nothing_left_out(items, prefix, i[0], file);
}

/// Whether a listed file lies where its path says.
pub open spec fn has_way(items: Seq<DirItem>, prefix: Seq<char>, file: Listed) -> bool {
    exists|way: Seq<Seq<char>>, i: Seq<int>| #[trigger]
        lies_at(items, way, i, file) && file.rel == with_slashes(prefix, way)
}

proof fn lemma_item_has_way(items: Seq<DirItem>, prefix: Seq<char>, at: int, k: int)
    requires
        prefix.len() > 0,
        0 <= at < items.len(),
        0 <= k < item_listing(items[at], prefix).len(),
    ensures
        has_way(items, prefix, item_listing(items[at], prefix)[k]),
    decreases items, 0nat,
{
    let item = items[at];
    let file = item_listing(item, prefix)[k];
    let inner = prefix + seq!['/'] + item.name@;
    assert(below(prefix, item.name@) =~= inner);
    match item.kind {
        ItemKind::Dir(sub) => {
            lemma_walked_has_way(sub@, inner, name_order(sub@), name_order(sub@).len(), k);
            let (way, i) = choose|way: Seq<Seq<char>>, i: Seq<int>| #[trigger]
                lies_at(sub@, way, i, file) && file.rel == with_slashes(inner, way);
            let way2 = seq![item.name@] + way;
            let i2 = seq![at] + i;
            assert(way2.drop_first() =~= way);
            assert(i2.drop_first() =~= i);
            assert(lies_at(items, way2, i2, file));
            assert(with_slashes(prefix, way2) == with_slashes(inner, way));
        },
        ItemKind::File { size, mtime } => {
            let way2 = seq![item.name@];
            let i2 = seq![at];
            assert(way2.drop_first().len() == 0);
            assert(with_slashes(inner, way2.drop_first()) == inner);
            assert(lies_at(items, way2, i2, file));
        },
        ItemKind::Other => {},
    }
}

proof fn lemma_walked_has_way(
    items: Seq<DirItem>,
    prefix: Seq<char>,
    order: Seq<Named<'static>>,
    n: nat,
    k: int,
)
    requires
        prefix.len() > 0,
        0 <= k < walked_in(items, order, n, prefix).len(),
    ensures
        has_way(items, prefix, walked_in(items, order, n, prefix)[k]),
    decreases items, n + 1,
{
    let all = walked_in(items, order, n, prefix);
    let before = walked_in(items, order, (n - 1) as nat, prefix);
    if k < before.len() {
        lemma_walked_has_way(items, prefix, order, (n - 1) as nat, k);
        assert(all[k] == before[k]);
    } else {
        let at = order[n - 1].at as int;
        lemma_item_has_way(items, prefix, at, k - before.len());
        assert(all[k] == item_listing(items[at], prefix)[k - before.len()]);
    }
}

/// Every listed file is a file that lies where its path says.
pub proof fn law_listed_lies_there(items: Seq<DirItem>, prefix: Seq<char>, k: int)
    requires
        prefix.len() > 0,
        0 <= k < walked(items, prefix).len(),
    ensures
        has_way(items, prefix, walked(items, prefix)[k]),
{
    lemma_walked_has_way(items, prefix, name_order(items), name_order(items).len(), k);
}

/// Without a prefix, a file in the directory itself is listed by its name alone,
/// and what is in a directory of it behind that one's name.
pub proof fn law_listed_without_prefix(items: Seq<DirItem>, i: int, k: int)
    requires
        0 <= i < items.len() <= usize::MAX,
    ensures
        items[i].kind is File ==> exists|m: int|
            0 <= m < walked(items, Seq::empty()).len() && (#[trigger] walked(items, Seq::empty())[m]).rel
                == items[i].name@ && walked(items, Seq::empty())[m].path == items[i].path@,
        items[i].kind matches ItemKind::Dir(sub) ==> (0 <= k < walked(sub@, items[i].name@).len()
            ==> walked(items, Seq::empty()).contains(walked(sub@, items[i].name@)[k])),
{
    let none = Seq::<char>::empty();
    match items[i].kind {
        ItemKind::Dir(sub) => {
            if 0 <= k < walked(sub@, items[i].name@).len() {
                let e = walked(sub@, items[i].name@)[k];
                assert(item_listing(items[i], none)[k] == e);
                law_nothing_left_out(items, none, i, e);
            }
        },
        ItemKind::File { .. } => {
            let e = item_listing(items[i], none)[0];
            assert(item_listing(items[i], none).contains(e));
            law_nothing_left_out(items, none, i, e);
            let m = choose|m: int| 0 <= m < walked(items, none).len() && walked(items, none)[m] == e;
            assert(walked(items, none)[m].rel == items[i].name@);
        },
        ItemKind::Other => {},
    }
}

/// Names are in order byte by byte: at the first place where two differ the smaller
/// byte decides, and one that the other starts with comes first.
pub proof fn law_byte_order(a: Seq<u8>, b: Seq<u8>, k: int)
    requires
        0 <= k <= a.len(),
        k <= b.len(),
        a.take(k) == b.take(k),
    ensures
        k < a.len() && k < b.len() && a[k] < b[k] ==> bytes_leq(a, b) && !bytes_leq(b, a),
        k == a.len() ==> bytes_leq(a, b),
        k == a.len() && k < b.len() ==> !bytes_leq(b, a),
    decreases k,
{
    if k > 0 {
        assert(a.take(k)[0] == a[0]);
        assert(b.take(k)[0] == b[0]);
        assert(k < a.len() ==> a.drop_first()[k - 1] == a[k]);
        assert(k < b.len() ==> b.drop_first()[k - 1] == b[k]);
        assert(a.drop_first().take(k - 1) =~= a.take(k).drop_first());
        assert(b.drop_first().take(k - 1) =~= b.take(k).drop_first());
        law_byte_order(a.drop_first(), b.drop_first(), k - 1);
    }
}

proof fn lemma_order_place(items: Seq<DirItem>, i: int) -> (m: int)
    requires
        0 <= i < items.len() <= usize::MAX,
    ensures
        0 <= m < name_order(items).len(),
        name_order(items)[m] == names(items)[i],
        name_order(items)[m].at == i,
{
    let ns = names(items);
    let order = name_order(items);
    law_sort_permutes(ns);
    vstd::seq_lib::to_multiset_contains(ns, ns[i]);
    vstd::seq_lib::to_multiset_contains(order, ns[i]);
    assert(ns.contains(ns[i]));
    choose|m: int| 0 <= m < order.len() && order[m] == ns[i]
}

proof fn lemma_listed_where(
    items: Seq<DirItem>,
    order: Seq<Named<'static>>,
    n: nat,
    prefix: Seq<char>,
    m: int,
)
    requires
        0 <= m < n <= order.len(),
        order[m].at < items.len(),
    ensures
        ({
            let all = walked_in(items, order, n, prefix);
            let c = walked_in(items, order, m as nat, prefix).len() as int;
            let part = item_listing(items[order[m].at as int], prefix);
            &&& c + part.len() <= all.len()
            &&& all.subrange(c, c + part.len()) == part
        }),
    decreases n,
{
    let all = walked_in(items, order, n, prefix);
    let before = walked_in(items, order, (n - 1) as nat, prefix);
    let c = walked_in(items, order, m as nat, prefix).len() as int;
    let part = item_listing(items[order[m].at as int], prefix);
    if m == n - 1 {
        assert(all.subrange(c, c + part.len()) =~= part);
    } else {
        lemma_listed_where(items, order, (n - 1) as nat, prefix, m);
        assert(all.subrange(c, c + part.len()) =~= before.subrange(c, c + part.len()));
    }
}

proof fn lemma_walked_grows(
    items: Seq<DirItem>,
    order: Seq<Named<'static>>,
    a: nat,
    b: nat,
    prefix: Seq<char>,
)
    requires
        a <= b <= order.len(),
    ensures
        walked_in(items, order, a, prefix).len() <= walked_in(items, order, b, prefix).len(),
    decreases b,
{
    if a < b {
        lemma_walked_grows(items, order, a, (b - 1) as nat, prefix);
    }
}

/// What an item lists stands together in the list, and before what any item with a
/// later name lists: from `p` on the one, and from `q` on the other.
pub proof fn law_listed_by_name(items: Seq<DirItem>, prefix: Seq<char>, i: int, j: int)
    requires
        0 <= i < items.len() <= usize::MAX,
        0 <= j < items.len(),
        !bytes_leq(items[j].key@, items[i].key@),
    ensures
        exists|p: int, q: int|
            0 <= p && p + item_listing(items[i], prefix).len() <= q && q + item_listing(
                items[j],
                prefix,
            ).len() <= walked(items, prefix).len() && #[trigger] walked(items, prefix).subrange(
                p,
                p + item_listing(items[i], prefix).len(),
            ) == item_listing(items[i], prefix) && #[trigger] walked(items, prefix).subrange(
                q,
                q + item_listing(items[j], prefix).len(),
            ) == item_listing(items[j], prefix),
{
    let order = name_order(items);
    let a = lemma_order_place(items, i);
    let b = lemma_order_place(items, j);
    law_stable_sorted(names(items));
    if b <= a {
        assert(order[b].leq(&order[a]));
    }
    lemma_listed_where(items, order, order.len(), prefix, a);
    lemma_listed_where(items, order, order.len(), prefix, b);
    lemma_listed_where(items, order, (a + 1) as nat, prefix, a);
    lemma_walked_grows(items, order, (a + 1) as nat, b as nat, prefix);
    let p = walked_in(items, order, a as nat, prefix).len() as int;
    let q = walked_in(items, order, b as nat, prefix).len() as int;
    assert(walked(items, prefix).subrange(p, p + item_listing(items[i], prefix).len()) == item_listing(
        items[i],
        prefix,
    ));
    assert(walked(items, prefix).subrange(q, q + item_listing(items[j], prefix).len()) == item_listing(
        items[j],
        prefix,
    ));
}

/// A time is told as it is where 64 bits hold it, without what is beyond them
/// where they do not, and as zero where there is none.
pub proof fn law_told_times(t: u128)
    ensures
        t <= u64::MAX ==> told_time(Some(t)) == t,
        told_time(Some(t)) == t as int % 18446744073709551616,
        told_time(None) == 0,
{
}

/// The files of a list, with texts as sequences of characters.
pub open spec fn listed(v: Seq<DirEntryOut>) -> Seq<Listed> {
    v.map_values(|e: DirEntryOut| e@)
}

/// The path of an item below `prefix`.
fn join_name(prefix: &str, name: &str) -> (r: String)
    ensures
        r@ == below(prefix@, name@),
{
    if prefix.is_empty() {
        name.to_owned()
    } else {
        let mut s = prefix.to_owned();
        s.push('/');
        s.append(name);
        s
    }
}

/// Lists the files in a directory and below it, with their paths below
/// `prefix`. The items of each directory come by name, and a directory's files
/// where its name stands.
pub fn walk(items: &Vec<DirItem>, prefix: &str, out: &mut Vec<DirEntryOut>)
    ensures
        listed(final(out)@) == listed(old(out)@) + walked(items@, prefix@),
    decreases items,
{
    let mut refs: Vec<Named> = Vec::new();
    let mut i: usize = 0;
    while i < items.len()
        invariant
            i <= items.len(),
            refs@ == names(items@).take(i as int),
        decreases items.len() - i,
    {
        refs.push(Named { key: &items[i].key, at: i });
        proof {
            assert(names(items@).take(i + 1) =~= names(items@).take(i as int).push(
                names(items@)[i as int],
            ));
        }
        i = i + 1;
    }
    proof {
        assert(names(items@).take(items@.len() as int) =~= names(items@));
    }
    let order = stable_sort(refs);
    let ghost start = listed(out@);
    proof {
        assert(start + walked_in(items@, order@, 0, prefix@) =~= start);
    }
    let mut n: usize = 0;
    while n < order.len()
        invariant
            order@ == name_order(items@),
            n <= order.len(),
            listed(out@) == start + walked_in(items@, order@, n as nat, prefix@),
        decreases order.len() - n,
    {
        let at = order[n].at;
        let ghost so_far = listed(out@);
        if at < items.len() {
            let item = &items[at];
            let rel = join_name(prefix, item.name.as_str());
            match &item.kind {
                ItemKind::Dir(sub) => {
                    walk(sub, rel.as_str(), out);
                    proof {
                        assert(listed(out@) =~= start + walked_in(
                            items@,
                            order@,
                            (n + 1) as nat,
                            prefix@,
                        ));
                    }
                },
                ItemKind::File { size, mtime } => {
                    let e = DirEntryOut {
                        path: item.path.clone(),
                        rel,
                        size: *size,
                        mtime: tell_time(*mtime),
                    };
                    let ghost v = e@;
                    let ghost before = out@;
                    out.push(e);
                    proof {
                        assert(listed(out@) =~= listed(before).push(v));
                        assert(listed(out@) =~= start + walked_in(
                            items@,
                            order@,
                            (n + 1) as nat,
                            prefix@,
                        ));
                    }
                },
                ItemKind::Other => {
                    proof {
                        assert(listed(out@) =~= start + walked_in(
                            items@,
                            order@,
                            (n + 1) as nat,
                            prefix@,
                        ));
                    }
                },
            }
        }
        n = n + 1;
    }
}

/// The name that a folder is sent under.
pub open spec fn sent_root(root: Option<Seq<char>>) -> Seq<char> {
    match root {
        Some(name) => name,
        None => "folder"@,
    }
}

/// A folder is sent under its own name, and as `folder` only where it has none.
pub proof fn law_sent_under_own_name(name: Seq<char>)
    ensures
        sent_root(Some(name)) == name,
        sent_root(None) == seq!['f', 'o', 'l', 'd', 'e', 'r'],
{
    reveal_strlit("folder");
    assert("folder"@ =~= seq!['f', 'o', 'l', 'd', 'e', 'r']);
}

/// Lists a folder that is sent: each file's path starts with the folder's name,
/// or with `folder` where it has none.
pub fn list_dir(root: Option<&str>, items: &Vec<DirItem>) -> (r: Vec<DirEntryOut>)
    ensures
        listed(r@) == walked(
            items@,
            match root {
                Some(name) => name@,
                None => "folder"@,
            },
        ),
        listed(r@) == walked(items@, sent_root(opt_view(root))),
{
    let prefix: &str = match root {
        Some(name) => name,
        None => "folder",
    };
    let mut out: Vec<DirEntryOut> = Vec::new();
    walk(items, prefix, &mut out);
    proof {
        assert(listed(Seq::<DirEntryOut>::empty()) =~= Seq::<Listed>::empty());
        assert(Seq::<Listed>::empty() + walked(items@, prefix@) =~= walked(items@, prefix@));
    }
    out
}

/// What a path that is offered for sending leads to.
pub struct StatOut {
    pub is_dir: bool,
    pub size: u64,
    pub name: String,
    pub mtime: u64,
}

/// The size that a path is told with.
pub open spec fn told_size(is_dir: bool, len: u64) -> u64 {
    if is_dir {
        0
    } else {
        len
    }
}

/// The name that a path is told with.
pub open spec fn told_name(path: Seq<char>, name: Option<Seq<char>>) -> Seq<char> {
    match name {
        Some(n) => n,
        None => path,
    }
}

/// A file is told with its full size and a directory with none; its name is its
/// last one, and the path itself only where that has none.
pub proof fn law_told_as_it_is(path: Seq<char>, name: Seq<char>, len: u64)
    ensures
        told_size(false, len) == len,
        told_size(true, len) == 0,
        told_name(path, Some(name)) == name,
        told_name(path, None) == path,
{
}

/// What a path leads to: a directory counts as empty, and a path without a last
/// name is its own name.
pub fn stat_path(
    path: &str,
    name: Option<&str>,
    is_dir: bool,
    len: u64,
    mtime: Option<u128>,
) -> (r: StatOut)
    ensures
        r.is_dir == is_dir,
        r.size == (if is_dir {
            0
        } else {
            len
        }),
        r.name@ == (match name {
            Some(n) => n@,
            None => path@,
        }),
        r.mtime == told_time(mtime),
        r.size == told_size(is_dir, len),
        r.name@ == told_name(path@, opt_view(name)),
{
    let name: &str = match name {
        Some(n) => n,
        None => path,
    };
    StatOut {
        is_dir,
        size: if is_dir {
            0
        } else {
            len
        },
        name: name.to_owned(),
        mtime: tell_time(mtime),
    }
}

/// A listed file is seen with the fields that it has, one for each.
pub proof fn law_listed_as_it_is(v: Seq<DirEntryOut>, i: int)
    ensures
        listed(v).len() == v.len(),
        0 <= i < v.len() ==> listed(v)[i].path == v[i].path@ && listed(v)[i].rel == v[i].rel@
            && listed(v)[i].size == v[i].size && listed(v)[i].mtime == v[i].mtime,
{
}

} // verus!
