//! The addresses under which this device can be reached, and those that it
//! connects to.

use vstd::prelude::*;
use vstd::string::*;
use crate::number::{decimal, is_digit, law_decimal_digits, push_decimal};
use crate::path::texts;
use crate::text::chars_of;

verus! {

/// The address of a network interface.
pub enum LanAddr {
    /// Its four bytes.
    V4([u8; 4]),
    /// Its eight groups, and how they are written.
    V6 { groups: [u16; 8], text: String },
}

/// Whether other devices can reach an address: it is not a loopback address,
/// and not one that holds on one link only.
pub open spec fn is_reachable(a: LanAddr) -> bool {
    match a {
        LanAddr::V4(b) => b@[0] != 127 && !(b@[0] == 169 && b@[1] == 254),
        LanAddr::V6 { groups, .. } => {
            &&& !(groups@[7] == 1 && forall|i: int| 0 <= i < 7 ==> groups@[i] == 0)
            &&& !(0xfe80 <= groups@[0] <= 0xfebf)
        },
    }
}

/// Four bytes in decimal, with dots between them.
pub open spec fn dotted(b: Seq<u8>) -> Seq<char> {
    decimal(b[0] as nat) + seq!['.'] + decimal(b[1] as nat) + seq!['.'] + decimal(b[2] as nat)
        + seq!['.'] + decimal(b[3] as nat)
}

/// How an address is written.
pub open spec fn addr_text(a: LanAddr) -> Seq<char> {
    match a {
        LanAddr::V4(b) => dotted(b@),
        LanAddr::V6 { text, .. } => text@,
    }
}

/// The addresses that can be reached, as texts.
pub open spec fn reachable_texts(addrs: Seq<LanAddr>) -> Seq<Seq<char>> {
    addrs.filter(|a: LanAddr| is_reachable(a)).map_values(|a: LanAddr| addr_text(a))
}

/// The texts without a colon, then those with one; each kind in its order.
pub open spec fn colons_last(s: Seq<Seq<char>>) -> Seq<Seq<char>> {
    s.filter(|t: Seq<char>| !t.contains(':')) + s.filter(|t: Seq<char>| t.contains(':'))
}

/// Without the texts that are the same as the one right before them.
pub open spec fn deduped(s: Seq<Seq<char>>) -> Seq<Seq<char>>
    decreases s.len(),
{
    if s.len() <= 1 {
        s
    } else if s.last() == s[s.len() - 2] {
        deduped(s.drop_last())
    } else {
        deduped(s.drop_last()).push(s.last())
    }
}

/// The list of addresses that a peer is told.
pub open spec fn lan_list(addrs: Seq<LanAddr>) -> Seq<Seq<char>> {
    deduped(colons_last(reachable_texts(addrs)))
}

proof fn lemma_deduped(s: Seq<Seq<char>>)
    ensures
        deduped(s).len() <= s.len(),
        s.len() > 0 ==> deduped(s).len() > 0 && deduped(s).last() == s.last(),
        forall|i: int| 0 <= i < deduped(s).len() ==> s.contains(#[trigger] deduped(s)[i]),
        forall|i: int| 0 <= i < deduped(s).len() - 1 ==> #[trigger] deduped(s)[i] != deduped(s)[i + 1],
    decreases s.len(),
{
    let d = deduped(s);
    if s.len() <= 1 {
        assert forall|i: int| 0 <= i < d.len() implies s.contains(#[trigger] d[i]) by {
            assert(s[i] == d[i]);
        }
    } else {
        let init = s.drop_last();
        let before = deduped(init);
        lemma_deduped(init);
        assert forall|i: int| 0 <= i < d.len() implies s.contains(#[trigger] d[i]) by {
            if i < before.len() {
                assert(init.contains(before[i]));
                let k = choose|k: int| 0 <= k < init.len() && init[k] == before[i];
                assert(s[k] == d[i]);
            } else {
                assert(s[s.len() - 1] == d[i]);
            }
        }
        assert forall|i: int| 0 <= i < d.len() - 1 implies #[trigger] d[i] != d[i + 1] by {
            if i + 1 < before.len() {
                assert(before[i] != before[i + 1]);
            }
        }
    }
}

proof fn lemma_dedup_keeps_split(a: Seq<Seq<char>>, b: Seq<Seq<char>>, i: int, j: int)
    requires
        forall|k: int| 0 <= k < a.len() ==> !(#[trigger] a[k]).contains(':'),
        forall|k: int| 0 <= k < b.len() ==> (#[trigger] b[k]).contains(':'),
        0 <= i <= j < deduped(a + b).len(),
        deduped(a + b)[i].contains(':'),
    ensures
        deduped(a + b)[j].contains(':'),
    decreases a.len() + b.len(),
{
    let s = a + b;
    let d = deduped(s);
    lemma_deduped(s);
    if b.len() == 0 {
        assert(s.contains(d[i]));
        let k = choose|k: int| 0 <= k < s.len() && s[k] == d[i];
        assert(!a[k].contains(':'));
    } else if s.len() > 1 {
        let init = s.drop_last();
        assert(init =~= a + b.drop_last());
        let bi = b.drop_last();
        assert forall|k: int| 0 <= k < bi.len() implies (#[trigger] bi[k]).contains(':') by {
            assert(b[k].contains(':'));
        }
        let before = deduped(init);
        if j < before.len() {
            lemma_dedup_keeps_split(a, bi, i, j);
        } else {
            assert(d[j] == b[b.len() - 1]);
        }
    }
}

/// In the list of addresses, no address stands right behind itself.
pub proof fn law_no_repeats(addrs: Seq<LanAddr>, i: int)
    requires
        0 < i < lan_list(addrs).len(),
    ensures
        lan_list(addrs)[i - 1] != lan_list(addrs)[i],
{
    lemma_deduped(colons_last(reachable_texts(addrs)));
    let d = lan_list(addrs);
    let k = i - 1;
    assert(d[k] != d[k + 1]);
}

/// In the list of addresses, those without a colon come before those with one.
pub proof fn law_colons_last(addrs: Seq<LanAddr>, i: int, j: int)
    requires
        0 <= i < j < lan_list(addrs).len(),
        lan_list(addrs)[i].contains(':'),
    ensures
        lan_list(addrs)[j].contains(':'),
{
    let ts = reachable_texts(addrs);
    let p = |t: Seq<char>| !t.contains(':');
    let q = |t: Seq<char>| t.contains(':');
    let a = ts.filter(p);
    let b = ts.filter(q);
    assert forall|k: int| 0 <= k < a.len() implies !(#[trigger] a[k]).contains(':') by {
        ts.lemma_filter_pred(p, k);
    }
    assert forall|k: int| 0 <= k < b.len() implies (#[trigger] b[k]).contains(':') by {
        ts.lemma_filter_pred(q, k);
    }
    lemma_dedup_keeps_split(a, b, i, j);
}

/// Four bytes with dots between them hold no colon: such an address comes
/// before every one that has a colon.
pub proof fn law_dotted_has_no_colon(b: Seq<u8>)
    requires
        b.len() == 4,
    ensures
        !dotted(b).contains(':'),
{
    law_decimal_digits(b[0] as nat);
    law_decimal_digits(b[1] as nat);
    law_decimal_digits(b[2] as nat);
    law_decimal_digits(b[3] as nat);
    let d0 = decimal(b[0] as nat);
    let d1 = decimal(b[1] as nat);
    let d2 = decimal(b[2] as nat);
    let d3 = decimal(b[3] as nat);
    let t = dotted(b);
    assert forall|i: int| 0 <= i < t.len() implies t[i] != ':' by {
        let n0 = d0.len() as int;
        let n1 = n0 + 1 + d1.len();
        let n2 = n1 + 1 + d2.len();
        if i < n0 {
            assert(t[i] == d0[i]);
            assert(is_digit(d0[i]));
        } else if i == n0 {
            assert(t[i] == '.');
        } else if i < n1 {
            assert(t[i] == d1[i - n0 - 1]);
            assert(is_digit(d1[i - n0 - 1]));
        } else if i == n1 {
            assert(t[i] == '.');
        } else if i < n2 {
            assert(t[i] == d2[i - n1 - 1]);
            assert(is_digit(d2[i - n1 - 1]));
        } else if i == n2 {
            assert(t[i] == '.');
        } else {
            assert(t[i] == d3[i - n2 - 1]);
            assert(is_digit(d3[i - n2 - 1]));
        }
    }
}

/// Every address in the list is that of an interface that can be reached.
pub proof fn law_listed_is_reachable(addrs: Seq<LanAddr>, i: int)
    requires
        0 <= i < lan_list(addrs).len(),
    ensures
        exists|k: int|
            0 <= k < addrs.len() && is_reachable(#[trigger] addrs[k]) && addr_text(addrs[k])
                == lan_list(addrs)[i],
{
    let ts = reachable_texts(addrs);
    let p = |t: Seq<char>| !t.contains(':');
    let q = |t: Seq<char>| t.contains(':');
    let s = colons_last(ts);
    let t = lan_list(addrs)[i];
    lemma_deduped(s);
    assert(s.contains(t));
    let k = choose|k: int| 0 <= k < s.len() && s[k] == t;
    if k < ts.filter(p).len() {
        assert(ts.filter(p).contains(t)) by {
            assert(ts.filter(p)[k] == t);
        }
        ts.lemma_filter_contains_rev(p, t);
    } else {
        assert(ts.filter(q).contains(t)) by {
            assert(ts.filter(q)[k - ts.filter(p).len()] == t);
        }
        ts.lemma_filter_contains_rev(q, t);
    }
    assert(ts.contains(t));
    let m = choose|m: int| 0 <= m < ts.len() && ts[m] == t;
    let r = |a: LanAddr| is_reachable(a);
    let f = addrs.filter(r);
    assert(ts[m] == addr_text(f[m]));
    assert(f.contains(f[m]));
    addrs.lemma_filter_contains_rev(r, f[m]);
    let w = choose|w: int| 0 <= w < addrs.len() && addrs[w] == f[m];
    assert(is_reachable(addrs[w]) && addr_text(addrs[w]) == t);
}

proof fn lemma_deduped_keeps(s: Seq<Seq<char>>, t: Seq<char>)
    requires
        s.contains(t),
    ensures
        deduped(s).contains(t),
    decreases s.len(),
{
    if s.len() > 1 {
        let init = s.drop_last();
        let d = deduped(s);
        let before = deduped(init);
        lemma_deduped(s);
        let k = choose|k: int| 0 <= k < s.len() && s[k] == t;
        if k == s.len() - 1 {
            assert(d[d.len() - 1] == t);
        } else {
            assert(init[k] == t);
            lemma_deduped_keeps(init, t);
            let j = choose|j: int| 0 <= j < before.len() && before[j] == t;
            assert(d[j] == t);
        }
    }
}

/// Every address of an interface that can be reached is in the list.
pub proof fn law_reachable_is_listed(addrs: Seq<LanAddr>, k: int)
    requires
        0 <= k < addrs.len(),
        is_reachable(addrs[k]),
    ensures
        lan_list(addrs).contains(addr_text(addrs[k])),
{
    let ok = |a: LanAddr| is_reachable(a);
    let p = |t: Seq<char>| !t.contains(':');
    let q = |t: Seq<char>| t.contains(':');
    let t = addr_text(addrs[k]);
    let f = addrs.filter(ok);
    let ts = reachable_texts(addrs);
    let s = colons_last(ts);
    addrs.lemma_filter_contains(ok, k);
    let m = choose|m: int| 0 <= m < f.len() && f[m] == addrs[k];
    assert(ts[m] == t);
    if p(t) {
        ts.lemma_filter_contains(p, m);
        let x = choose|x: int| 0 <= x < ts.filter(p).len() && ts.filter(p)[x] == t;
        assert(s[x] == t);
    } else {
        ts.lemma_filter_contains(q, m);
        let x = choose|x: int| 0 <= x < ts.filter(q).len() && ts.filter(q)[x] == t;
        assert(s[ts.filter(p).len() + x] == t);
    }
    lemma_deduped_keeps(s, t);
}

fn reachable(a: &LanAddr) -> (r: bool)
    ensures
        r == is_reachable(*a),
{
    match a {
        LanAddr::V4(b) => b[0] != 127 && !(b[0] == 169 && b[1] == 254),
        LanAddr::V6 { groups, .. } => {
            let zeros = groups[0] == 0 && groups[1] == 0 && groups[2] == 0 && groups[3] == 0
                && groups[4] == 0 && groups[5] == 0 && groups[6] == 0;
            let g = groups[0];
            proof {
                assert((g & 0xffc0u16) == 0xfe80u16 <==> 0xfe80u16 <= g && g <= 0xfebfu16)
                    by (bit_vector);
                if zeros {
                    assert forall|i: int| 0 <= i < 7 implies groups@[i] == 0 by {}
                }
            }
            !(zeros && groups[7] == 1) && !((g & 0xffc0) == 0xfe80)
        },
    }
}

fn write_addr(a: &LanAddr) -> (r: String)
    ensures
        r@ == addr_text(*a),
{
    match a {
        LanAddr::V4(b) => {
            let mut s = String::new();
            push_decimal(&mut s, b[0] as u64);
            s.push('.');
            push_decimal(&mut s, b[1] as u64);
            s.push('.');
            push_decimal(&mut s, b[2] as u64);
            s.push('.');
            push_decimal(&mut s, b[3] as u64);
            proof {
                assert(s@ =~= dotted(b@));
            }
            s
        },
        LanAddr::V6 { text, .. } => text.clone(),
    }
}

fn has_colon(s: &str) -> (r: bool)
    ensures
        r == s@.contains(':'),
{
    let v = chars_of(s);
    let mut i: usize = 0;
    while i < v.len()
        invariant
            v@ == s@,
            i <= v.len(),
            forall|j: int| 0 <= j < i ==> v@[j] != ':',
        decreases v.len() - i,
    {
        if v[i] == ':' {
            return true;
        }
        i = i + 1;
    }
    false
}

fn dedup(v: &Vec<String>) -> (r: Vec<String>)
    ensures
        texts(r@) == deduped(texts(v@)),
{
    let ghost all = texts(v@);
    let mut out: Vec<String> = Vec::new();
    let mut i: usize = 0;
    proof {
        assert(texts(out@) =~= deduped(all.take(0)));
    }
    while i < v.len()
        invariant
            all == texts(v@),
            i <= v.len(),
            texts(out@) == deduped(all.take(i as int)),
        decreases v.len() - i,
    {
        let again = i > 0 && v[i - 1] == v[i];
        proof {
            assert(all.take(i + 1).drop_last() =~= all.take(i as int));
            assert(all.take(i + 1).last() == v@[i as int]@);
            if i > 0 {
                assert(all.take(i + 1)[i - 1] == v@[i - 1]@);
            } else {
                assert(all.take(0) =~= Seq::<Seq<char>>::empty());
                assert(all.take(1) =~= seq![all[0]]);
                assert(deduped(all.take(1)) =~= deduped(all.take(0)).push(all[0]));
            }
        }
        if !again {
            let ghost before = out@;
            out.push(v[i].clone());
            proof {
                assert(texts(out@) =~= texts(before).push(all[i as int]));
            }
        }
        i = i + 1;
    }
    proof {
        assert(all.take(all.len() as int) =~= all);
    }
    out
}

/// The addresses among those of a device's interfaces under which other devices
/// can reach it: those without a colon first, and none right behind itself.
pub fn reachable_ips(addrs: &Vec<LanAddr>) -> (r: Vec<String>)
    ensures
        texts(r@) == lan_list(addrs@),
{
    let ghost ok = |a: LanAddr| is_reachable(a);
    let ghost p = |t: Seq<char>| !t.contains(':');
    let ghost q = |t: Seq<char>| t.contains(':');
    let mut plain: Vec<String> = Vec::new();
    let mut rest: Vec<String> = Vec::new();
    let mut i: usize = 0;
    proof {
        reveal(Seq::filter);
        assert(addrs@.take(0) =~= Seq::<LanAddr>::empty());
        assert(reachable_texts(addrs@.take(0)) =~= Seq::<Seq<char>>::empty());
        assert(texts(plain@) =~= reachable_texts(addrs@.take(0)).filter(p));
        assert(texts(rest@) =~= reachable_texts(addrs@.take(0)).filter(q));
    }
    while i < addrs.len()
        invariant
            ok == (|a: LanAddr| is_reachable(a)),
            p == (|t: Seq<char>| !t.contains(':')),
            q == (|t: Seq<char>| t.contains(':')),
            i <= addrs.len(),
            texts(plain@) == reachable_texts(addrs@.take(i as int)).filter(p),
            texts(rest@) == reachable_texts(addrs@.take(i as int)).filter(q),
        decreases addrs.len() - i,
    {
        let ghost was = addrs@.take(i as int);
        let ghost a = addrs@[i as int];
        proof {
            assert(addrs@.take(i + 1) =~= was.push(a));
            was.lemma_filter_push(a, ok);
        }
        if reachable(&addrs[i]) {
            let t = write_addr(&addrs[i]);
            let colon = has_colon(t.as_str());
            proof {
                assert(reachable_texts(addrs@.take(i + 1)) =~= reachable_texts(was).push(t@));
                reachable_texts(was).lemma_filter_push(t@, p);
                reachable_texts(was).lemma_filter_push(t@, q);
            }
            let ghost plain0 = plain@;
            let ghost rest0 = rest@;
            let ghost new = t;
            if colon {
                rest.push(t);
                proof {
                    assert(texts(rest@) =~= texts(rest0).push(new@));
                }
            } else {
                plain.push(t);
                proof {
                    assert(texts(plain@) =~= texts(plain0).push(new@));
                }
            }
        } else {
            proof {
                assert(reachable_texts(addrs@.take(i + 1)) =~= reachable_texts(was));
            }
        }
        i = i + 1;
    }
    proof {
        assert(addrs@.take(addrs@.len() as int) =~= addrs@);
    }
    let ghost plain0 = plain@;
    let ghost rest0 = rest@;
    plain.append(&mut rest);
    proof {
        assert(texts(plain@) =~= texts(plain0) + texts(rest0));
    }
    dedup(&plain)
}

/// How `std::net::Ipv6Addr` writes an address of eight groups.
pub uninterp spec fn v6_text(groups: Seq<u16>) -> Seq<char>;

/// Whether each address of eight groups has the text that the standard library
/// writes it as, which has a colon.
pub open spec fn as_written(addrs: Seq<LanAddr>) -> bool {
    forall|i: int|
        0 <= i < addrs.len() ==> match #[trigger] addrs[i] {
            LanAddr::V4(_) => true,
            LanAddr::V6 { groups, text } => text@ == v6_text(groups@) && text@.contains(':'),
        }
}

/// `if_addrs::get_if_addrs`: the addresses of this device's network interfaces,
/// or nothing where the system does not tell them. Which ones there are comes
/// from the machine, and nothing is promised of that. The text of an address of
/// eight groups is what `std::net::Ipv6Addr` writes: it depends on the groups
/// alone and has a colon.
#[verifier::external_body]
fn interface_addrs() -> (r: Option<Vec<LanAddr>>)
    ensures
        match r {
            Some(v) => forall|i: int|
                0 <= i < v@.len() ==> match #[trigger] v@[i] {
                    LanAddr::V4(_) => true,
                    LanAddr::V6 { groups, text } => text@ == v6_text(groups@) && text@.contains(':'),
                },
            None => true,
        },
{
    let list = if_addrs::get_if_addrs().ok()?;
    let to_addr = |i: if_addrs::Interface| match i.addr {
        if_addrs::IfAddr::V4(a) => LanAddr::V4(a.ip.octets()),
        if_addrs::IfAddr::V6(a) => LanAddr::V6 {
            groups: a.ip.segments(),
            text: a.ip.to_string(),
        },
    };
    Some(list.into_iter().map(to_addr).collect())
}

/// The addresses under which other devices can reach this one. Which interfaces
/// it has is up to the machine; [`reachable_ips`] says what is made of them.
pub fn lan_ips() -> (r: Vec<String>)
    ensures
        exists|addrs: Seq<LanAddr>| as_written(addrs) && texts(r@) == #[trigger] lan_list(addrs),
{
    let addrs: Vec<LanAddr> = match interface_addrs() {
        Some(v) => v,
        None => Vec::new(),
    };
    proof {
        assert(as_written(addrs@));
    }
    reachable_ips(&addrs)
}

/// In the list of a device's addresses, a text without a colon is the dotted
/// text of four bytes that can be reached, and any other is how an address of
/// eight groups that can be reached is written.
pub proof fn law_listed_kinds(addrs: Seq<LanAddr>, i: int)
    requires
        as_written(addrs),
        0 <= i < lan_list(addrs).len(),
    ensures
        !lan_list(addrs)[i].contains(':') ==> exists|k: int|
            0 <= k < addrs.len() && (#[trigger] addrs[k]) is V4 && is_reachable(addrs[k])
                && lan_list(addrs)[i] == dotted(addrs[k]->V4_0@),
        lan_list(addrs)[i].contains(':') ==> exists|k: int|
            0 <= k < addrs.len() && (#[trigger] addrs[k]) is V6 && is_reachable(addrs[k])
                && lan_list(addrs)[i] == v6_text(addrs[k]->groups@),
{
    law_listed_is_reachable(addrs, i);
    let k = choose|k: int|
        0 <= k < addrs.len() && is_reachable(#[trigger] addrs[k]) && addr_text(addrs[k])
            == lan_list(addrs)[i];
    match addrs[k] {
        LanAddr::V4(b) => {
            law_dotted_has_no_colon(b@);
        },
        LanAddr::V6 { .. } => {},
    }
}

/// In the list of a device's addresses, those of four bytes come before those
/// of eight groups.
pub proof fn law_v4_before_v6(addrs: Seq<LanAddr>, i: int, j: int, k: int, m: int)
    requires
        as_written(addrs),
        0 <= i < lan_list(addrs).len(),
        0 <= j < lan_list(addrs).len(),
        0 <= k < addrs.len(),
        0 <= m < addrs.len(),
        addrs[k] is V4,
        addrs[m] is V6,
        lan_list(addrs)[i] == addr_text(addrs[k]),
        lan_list(addrs)[j] == addr_text(addrs[m]),
    ensures
        i < j,
{
    law_dotted_has_no_colon(addrs[k]->V4_0@);
    assert(addr_text(addrs[m]).contains(':'));
    if j < i {
        law_colons_last(addrs, j, i);
    }
}

/// A host and a port as one address: a host with a colon goes into brackets.
pub open spec fn socket_text(host: Seq<char>, port: u16) -> Seq<char> {
    if host.contains(':') {
        seq!['['] + host + seq![']', ':'] + decimal(port as nat)
    } else {
        host + seq![':'] + decimal(port as nat)
    }
}

/// A host and a port as one address: a host with a colon goes into brackets.
pub fn socket_addr(host: &str, port: u16) -> (r: String)
    ensures
        r@ == socket_text(host@, port),
{
    let colon = has_colon(host);
    let mut s = String::new();
    if colon {
        s.push('[');
    }
    s.append(host);
    if colon {
        s.push(']');
    }
    s.push(':');
    push_decimal(&mut s, port as u64);
    proof {
        assert(s@ =~= socket_text(host@, port));
    }
    s
}

/// An address of four bytes cannot be reached if it is a loopback address or of one
/// link only, 127.x.x.x or 169.254.x.x, and one of eight groups if it is `::1` or
/// its first ten bits are those of `fe80`. Any other can.
pub proof fn law_what_is_reachable(b: [u8; 4], groups: [u16; 8], text: String)
    ensures
        is_reachable(LanAddr::V4(b)) <==> b@[0] != 127 && (b@[0] != 169 || b@[1] != 254),
        is_reachable(LanAddr::V6 { groups, text }) <==> groups@[0] / 64 != 0xfe80u16 / 64 && groups@
            != seq![0u16, 0, 0, 0, 0, 0, 0, 1],
{
    let g = groups@;
    assert(0xfe80 <= g[0] <= 0xfebf <==> g[0] / 64 == 0xfe80u16 / 64);
    if g[7] == 1 && forall|i: int| 0 <= i < 7 ==> g[i] == 0 {
        assert(g =~= seq![0u16, 0, 0, 0, 0, 0, 0, 1]);
    }
    if g == seq![0u16, 0, 0, 0, 0, 0, 0, 1] {
        assert(g[7] == 1);
        assert forall|i: int| 0 <= i < 7 implies g[i] == 0 by {}
    }
}

/// Four bytes are written in decimal, each but the last with a dot behind it, and
/// eight groups as they were given.
pub proof fn law_how_addresses_are_written(b: [u8; 4], groups: [u16; 8], text: String)
    ensures
        addr_text(LanAddr::V4(b)) == decimal(b@[0] as nat).push('.') + decimal(b@[1] as nat).push('.')
            + decimal(b@[2] as nat).push('.') + decimal(b@[3] as nat),
        addr_text(LanAddr::V6 { groups, text }) == text@,
{
    assert(dotted(b@) =~= decimal(b@[0] as nat).push('.') + decimal(b@[1] as nat).push('.') + decimal(
        b@[2] as nat,
    ).push('.') + decimal(b@[3] as nat));
}

/// The texts are made of the addresses one by one: each that can be reached adds
/// its text, and any other nothing.
pub proof fn law_texts_one_by_one(addrs: Seq<LanAddr>, a: LanAddr)
    ensures
        reachable_texts(addrs.push(a)) == (if is_reachable(a) {
            reachable_texts(addrs).push(addr_text(a))
        } else {
            reachable_texts(addrs)
        }),
        reachable_texts(Seq::empty()).len() == 0,
{
    let ok = |a: LanAddr| is_reachable(a);
    addrs.lemma_filter_push(a, ok);
    assert(reachable_texts(addrs.push(a)) =~= (if is_reachable(a) {
        reachable_texts(addrs).push(addr_text(a))
    } else {
        reachable_texts(addrs)
    }));
    reveal(Seq::filter);
    assert(Seq::<LanAddr>::empty().filter(ok).len() == 0);
}

/// The list of addresses has the texts without a colon in their order and then the
/// others in theirs, but no text right behind itself.
pub proof fn law_list_in_two_runs(addrs: Seq<LanAddr>)
    ensures
        lan_list(addrs) == deduped(
            reachable_texts(addrs).filter(|t: Seq<char>| !t.contains(':')) + reachable_texts(
                addrs,
            ).filter(|t: Seq<char>| t.contains(':')),
        ),
{
}

proof fn lemma_dedup_pair(a: Seq<Seq<char>>, x: Seq<char>, b: Seq<Seq<char>>)
    ensures
        deduped(a.push(x).push(x) + b) == deduped(a.push(x) + b),
    decreases b.len(),
{
    let two = a.push(x).push(x) + b;
    let one = a.push(x) + b;
    if b.len() == 0 {
        assert(two =~= a.push(x).push(x));
        assert(one =~= a.push(x));
        assert(two.drop_last() =~= one);
        assert(two.last() == two[two.len() - 2]);
    } else {
        lemma_dedup_pair(a, x, b.drop_last());
        assert(two.drop_last() =~= a.push(x).push(x) + b.drop_last());
        assert(one.drop_last() =~= a.push(x) + b.drop_last());
        assert(two.last() == one.last());
        assert(two[two.len() - 2] == one[one.len() - 2]);
    }
}

proof fn lemma_dedup_none(s: Seq<Seq<char>>)
    requires
        forall|i: int| 0 < i < s.len() ==> s[i - 1] != #[trigger] s[i],
    ensures
        deduped(s) == s,
    decreases s.len(),
{
    if s.len() > 1 {
        let init = s.drop_last();
        assert forall|i: int| 0 < i < init.len() implies init[i - 1] != #[trigger] init[i] by {
            assert(s[i - 1] != s[i]);
        }
        lemma_dedup_none(init);
        let k = s.len() - 1;
        assert(s[k - 1] != s[k]);
        assert(init.push(s.last()) =~= s);
    }
}

/// Of two equal texts next to each other one is left out, and nothing else is: a
/// list without such a pair stays as it is.
pub proof fn law_only_neighbours_are_merged(a: Seq<Seq<char>>, x: Seq<char>, b: Seq<Seq<char>>)
    ensures
        deduped(a.push(x).push(x) + b) == deduped(a.push(x) + b),
        (forall|i: int| 0 < i < a.len() ==> a[i - 1] != #[trigger] a[i]) ==> deduped(a) == a,
{
    lemma_dedup_pair(a, x, b);
    if forall|i: int| 0 < i < a.len() ==> a[i - 1] != #[trigger] a[i] {
        lemma_dedup_none(a);
    }
}

/// A host and a port can be read back from their address: the host stands in front,
/// in brackets if it has a colon, and the port in decimal behind a colon.
pub proof fn law_socket_address_parts(host: Seq<char>, port: u16)
    ensures
        !host.contains(':') ==> socket_text(host, port).take(host.len() as int) == host && socket_text(
            host,
            port,
        )[host.len() as int] == ':' && socket_text(host, port).skip(host.len() as int + 1) == decimal(
            port as nat,
        ),
        host.contains(':') ==> socket_text(host, port)[0] == '[' && socket_text(host, port).subrange(
            1,
            host.len() as int + 1,
        ) == host && socket_text(host, port)[host.len() as int + 1] == ']' && socket_text(host, port)[host.len() as int + 2] == ':' && socket_text(host, port).skip(host.len() as int + 3) == decimal(port as nat),
{
    let t = socket_text(host, port);
    if host.contains(':') {
        assert(t.subrange(1, host.len() as int + 1) =~= host);
        assert(t.skip(host.len() as int + 3) =~= decimal(port as nat));
    } else {
        assert(t.take(host.len() as int) =~= host);
        assert(t.skip(host.len() as int + 1) =~= decimal(port as nat));
    }
}

} // verus!
