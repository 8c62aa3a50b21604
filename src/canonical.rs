//! The canonical text of an address literal: the form in which the address is
//! printed back once it has been read.
use vstd::prelude::*;

use crate::address::{
    char_views, decimal, decimal_text, digit_char, digit_text, digits_value, fields, groups_count,
    is_hex_group, is_ip, is_ipv4, is_ipv6, is_octet, split_fields, tail_ok, compressed_ok,
};

verus! {

/// The value of a hexadecimal digit.
pub open spec fn hex_digit_value(c: char) -> nat {
    if '0' <= c && c <= '9' {
        (c as u32 - '0' as u32) as nat
    } else if 'a' <= c && c <= 'f' {
        (c as u32 - 'a' as u32 + 10) as nat
    } else {
        (c as u32 - 'A' as u32 + 10) as nat
    }
}

/// The value of a run of hexadecimal digits, most significant first.
pub open spec fn hex_value(s: Seq<char>) -> nat
    decreases s.len(),
{
    if s.len() == 0 {
        0
    } else {
        hex_value(s.drop_last()) * 16 + hex_digit_value(s.last())
    }
}

/// The two 16-bit groups that a dotted quad stands for.
pub open spec fn quad_groups(l: Seq<char>) -> Seq<u16> {
    let o = fields(l, '.');
    seq![
        (digits_value(o[0]) * 256 + digits_value(o[1])) as u16,
        (digits_value(o[2]) * 256 + digits_value(o[3])) as u16,
    ]
}

/// The 16-bit groups that `:`-separated pieces stand for.
pub open spec fn group_values(fs: Seq<Seq<char>>) -> Seq<u16> {
    if fs.len() == 0 {
        seq![]
    } else {
        let init = fs.drop_last().map_values(|f: Seq<char>| hex_value(f) as u16);
        if is_hex_group(fs.last()) {
            init.push(hex_value(fs.last()) as u16)
        } else {
            init + quad_groups(fs.last())
        }
    }
}

/// The groups after a `::`.
pub open spec fn tail_values(t: Seq<Seq<char>>) -> Seq<u16> {
    if t == seq![Seq::<char>::empty()] {
        seq![]
    } else {
        group_values(t)
    }
}

/// The place of the `::` among the pieces: the first empty piece.
pub open spec fn first_empty(g: Seq<Seq<char>>) -> int {
    choose|j: int|
        0 <= j < g.len() && g[j].len() == 0 && (forall|k: int| 0 <= k < j ==> #[trigger] g[k].len() > 0)
}

/// The eight 16-bit groups of an IPv6 literal, a `::` standing for as many
/// zero groups as are missing.
pub open spec fn ipv6_segments(s: Seq<char>) -> Seq<u16> {
    let g = fields(s, ':');
    if forall|k: int| 0 <= k < g.len() ==> #[trigger] g[k].len() > 0 {
        group_values(g)
    } else {
        let j = first_empty(g);
        let head = if j == 0 { seq![] } else { group_values(g.subrange(0, j)) };
        let tail = tail_values(
            if j == 0 { g.subrange(2, g.len() as int) } else { g.subrange(j + 1, g.len() as int) },
        );
        head + Seq::new((8 - head.len() - tail.len()) as nat, |i: int| 0u16) + tail
    }
}

/// The lowercase hexadecimal digit of value `d`, for `d < 16`.
pub open spec fn hex_char(d: nat) -> char {
    if d < 10 { digit_char(d) }
    else if d == 10 { 'a' }
    else if d == 11 { 'b' }
    else if d == 12 { 'c' }
    else if d == 13 { 'd' }
    else if d == 14 { 'e' }
    else { 'f' }
}

/// Lowercase hexadecimal notation of `n`, without leading zeros.
pub open spec fn hex_text(n: nat) -> Seq<char>
    decreases n,
{
    if n < 16 {
        seq![hex_char(n)]
    } else {
        hex_text(n / 16).push(hex_char(n % 16))
    }
}

/// The groups in hexadecimal, joined by `:`.
pub open spec fn joined(s: Seq<u16>) -> Seq<char>
    decreases s.len(),
{
    if s.len() == 0 {
        seq![]
    } else if s.len() == 1 {
        hex_text(s[0] as nat)
    } else {
        joined(s.drop_last()) + ":"@ + hex_text(s.last() as nat)
    }
}

/// Scanning the groups left to right: the start and length of the first
/// longest run of zero groups, and of the run of zero groups at the end.
pub open spec fn zero_runs(s: Seq<u16>) -> (int, int, int, int)
    decreases s.len(),
{
    if s.len() == 0 {
        (0, 0, 0, 0)
    } else {
        let (bs, bl, cs, cl) = zero_runs(s.drop_last());
        if s.last() == 0 {
            let ns = if cl == 0 { s.len() - 1 } else { cs };
            let nl = cl + 1;
            if nl > bl { (ns, nl, ns, nl) } else { (bs, bl, ns, nl) }
        } else {
            (bs, bl, 0, 0)
        }
    }
}

/// An IPv4 address mapped into IPv6: `::ffff:a.b.c.d`.
pub open spec fn is_mapped(s: Seq<u16>) -> bool {
    s.len() == 8 && s[0] == 0 && s[1] == 0 && s[2] == 0 && s[3] == 0 && s[4] == 0 && s[5]
        == 0xffff
}

/// The canonical text of eight IPv6 groups: a mapped IPv4 address as
/// `::ffff:a.b.c.d`; otherwise lowercase hexadecimal groups, the first longest
/// run of two or more zero groups written as `::`.
pub open spec fn ipv6_text(s: Seq<u16>) -> Seq<char> {
    if is_mapped(s) {
        "::ffff:"@ + decimal((s[6] / 256) as nat) + "."@ + decimal((s[6] % 256) as nat) + "."@
            + decimal((s[7] / 256) as nat) + "."@ + decimal((s[7] % 256) as nat)
    } else {
        let r = zero_runs(s);
        if r.1 > 1 {
            joined(s.subrange(0, r.0)) + "::"@ + joined(s.subrange(r.0 + r.1, s.len() as int))
        } else {
            joined(s)
        }
    }
}

/// The canonical text of an address literal. A dotted quad without leading
/// zeros is already canonical.
#[verifier::opaque]
pub open spec fn canonical_ip(s: Seq<char>) -> Seq<char> {
    if is_ipv4(s) {
        s
    } else {
        ipv6_text(ipv6_segments(s))
    }
}


fn hex_group_value(v: &Vec<char>) -> (r: u16)
    requires
        is_hex_group(v@),
    ensures
        r as nat == hex_value(v@),
{
    let n = v.len();
    let mut val: u32 = 0;
    let mut k: usize = 0;
    while k < n
        invariant
            n == v@.len(),
            n <= 4,
            k <= n,
            is_hex_group(v@),
            val as nat == hex_value(v@.take(k as int)),
            (k == 0 && val == 0) || (k == 1 && val < 16) || (k == 2 && val < 256) || (k == 3 && val
                < 4096) || (k == 4 && val < 65536),
        decreases n - k,
    {
        let c = v[k];
        assert(crate::address::is_hex_digit(v@[k as int]));
        proof {
            assert(v@.take(k + 1).drop_last() =~= v@.take(k as int));
            assert(v@.take(k + 1).last() == c);
        }
        let d: u32 = if '0' <= c && c <= '9' {
            c as u32 - '0' as u32
        } else if 'a' <= c && c <= 'f' {
            c as u32 - 'a' as u32 + 10
        } else {
            c as u32 - 'A' as u32 + 10
        };
        val = val * 16 + d;
        k = k + 1;
    }
    assert(v@.take(n as int) =~= v@);
    val as u16
}

fn octet_value(v: &Vec<char>) -> (r: u16)
    requires
        is_octet(v@),
    ensures
        r as nat == digits_value(v@),
        r < 256,
{
    let n = v.len();
    let mut val: u32 = 0;
    let mut k: usize = 0;
    while k < n
        invariant
            n == v@.len(),
            n <= 3,
            k <= n,
            is_octet(v@),
            val as nat == digits_value(v@.take(k as int)),
            (k == 0 && val == 0) || (k == 1 && val < 10) || (k == 2 && val < 100) || (k == 3
                && val < 1000),
        decreases n - k,
    {
        let c = v[k];
        assert(crate::address::is_digit(v@[k as int]));
        proof {
            assert(v@.take(k + 1).drop_last() =~= v@.take(k as int));
            assert(v@.take(k + 1).last() == c);
        }
        val = val * 10 + (c as u32 - '0' as u32);
        k = k + 1;
    }
    assert(v@.take(n as int) =~= v@);
    val as u16
}

fn quad_pair(v: &Vec<char>) -> (r: (u16, u16))
    requires
        is_ipv4(v@),
    ensures
        seq![r.0, r.1] == quad_groups(v@),
{
    let o = split_fields(v, '.');
    let ghost ov = char_views(o@);
    assert(ov == fields(v@, '.'));
    assert(is_octet(ov[0]) && is_octet(ov[1]) && is_octet(ov[2]) && is_octet(ov[3]));
    let a = octet_value(&o[0]);
    let b = octet_value(&o[1]);
    let c = octet_value(&o[2]);
    let d = octet_value(&o[3]);
    let r = (a * 256 + b, c * 256 + d);
    assert(seq![r.0, r.1] =~= quad_groups(v@));
    r
}

/// Every piece but the last is a hexadecimal group, and the last is one or a
/// dotted quad.
pub open spec fn well_grouped(fs: Seq<Seq<char>>) -> bool {
    fs.len() > 0 ==> (forall|i: int| 0 <= i < fs.len() - 1 ==> is_hex_group(#[trigger] fs[i])) && (
    is_hex_group(fs.last()) || is_ipv4(fs.last()))
}

proof fn lemma_count_values(fs: Seq<Seq<char>>, limit: nat)
    requires
        groups_count(fs, limit) is Some,
    ensures
        well_grouped(fs),
        group_values(fs).len() == groups_count(fs, limit)->0,
{
}

/// Appends the groups that the pieces `fs[lo..hi]` stand for.
fn push_values(fs: &Vec<Vec<char>>, lo: usize, hi: usize, out: &mut Vec<u16>)
    requires
        lo <= hi <= fs@.len(),
        well_grouped(char_views(fs@).subrange(lo as int, hi as int)),
    ensures
        final(out)@ == old(out)@ + group_values(char_views(fs@).subrange(lo as int, hi as int)),
{
    let ghost t = char_views(fs@).subrange(lo as int, hi as int);
    if lo == hi {
        assert(group_values(t) =~= Seq::<u16>::empty());
        assert(out@ =~= old(out)@ + group_values(t));
        return;
    }
    let ghost init = t.drop_last().map_values(|f: Seq<char>| hex_value(f) as u16);
    let mut k = lo;
    while k + 1 < hi
        invariant
            lo <= k < hi <= fs@.len(),
            t == char_views(fs@).subrange(lo as int, hi as int),
            well_grouped(t),
            init == t.drop_last().map_values(|f: Seq<char>| hex_value(f) as u16),
            out@ == old(out)@ + init.take(k - lo),
        decreases hi - k,
    {
        assert(t[k - lo] == fs@[k as int]@);
        assert(is_hex_group(t[k - lo]));
        let x = hex_group_value(&fs[k]);
        out.push(x);
        assert(init.take(k + 1 - lo) =~= init.take(k - lo).push(init[k - lo]));
        k = k + 1;
    }
    assert(init.take(k - lo) =~= init);
    assert(t.last() == fs@[hi - 1]@);
    if crate::address::hex_group_ok(&fs[hi - 1]) {
        let x = hex_group_value(&fs[hi - 1]);
        out.push(x);
        assert(out@ =~= old(out)@ + group_values(t));
    } else {
        let (a, b) = quad_pair(&fs[hi - 1]);
        out.push(a);
        out.push(b);
        assert(out@ =~= old(out)@ + group_values(t));
    }
}


/// The eight groups of an IPv6 literal.
fn segments_of(s: &Vec<char>) -> (r: Vec<u16>)
    requires
        is_ipv6(s@),
    ensures
        r@ == ipv6_segments(s@),
        r@.len() == 8,
{
    let g = split_fields(s, ':');
    let ghost gv = char_views(g@);
    let n = g.len();
    let mut j: usize = 0;
    while j < n && g[j].len() > 0
        invariant
            n == g@.len(),
            j <= n,
            gv == char_views(g@),
            forall|k: int| 0 <= k < j ==> #[trigger] gv[k].len() > 0,
        decreases n - j,
    {
        j = j + 1;
    }
    assert(gv =~= gv.subrange(0, n as int));
    let mut out: Vec<u16> = Vec::new();
    if j == n {
        proof {
            if exists|j2: int| 0 <= j2 < gv.len() && gv[j2].len() == 0 && (forall|k: int|
                0 <= k < j2 ==> #[trigger] gv[k].len() > 0) && compressed_ok(gv, j2) {
                let j2 = choose|j2: int| 0 <= j2 < gv.len() && gv[j2].len() == 0 && (forall|k: int|
                    0 <= k < j2 ==> #[trigger] gv[k].len() > 0) && compressed_ok(gv, j2);
                assert(gv[j2].len() > 0);
            }
            lemma_count_values(gv, 8);
        }
        push_values(&g, 0, n, &mut out);
        assert(out@ =~= ipv6_segments(s@));
        return out;
    }
    proof {
        assert(gv[j as int].len() == 0);
        let j2 = choose|j2: int| 0 <= j2 < gv.len() && gv[j2].len() == 0 && (forall|k: int|
            0 <= k < j2 ==> #[trigger] gv[k].len() > 0) && compressed_ok(gv, j2);
        if j2 < j {
            assert(gv[j2].len() > 0);
        } else if j2 > j {
            assert(gv[j as int].len() > 0);
        }
        assert(first_empty(gv) == j) by {
            let f = first_empty(gv);
            if f < j {
                assert(gv[f].len() > 0);
            } else if f > j {
                assert(gv[j as int].len() > 0);
            }
        }
    }
    let lo: usize = if j == 0 { 2 } else { j + 1 };
    let ghost head_fields = gv.subrange(0, j as int);
    let ghost t = gv.subrange(lo as int, n as int);
    if j > 0 {
        proof {
            assert(groups_count(head_fields, 8) is Some);
            lemma_count_values(head_fields, 8);
        }
        push_values(&g, 0, j, &mut out);
    }
    let ghost head = out@;
    assert(head == (if j == 0 { Seq::<u16>::empty() } else { group_values(head_fields) }));
    assert(head.len() == j);
    let mut tail: Vec<u16> = Vec::new();
    let ghost limit: nat = (7 - j) as nat;
    assert(tail_ok(t, limit));
    if n - lo == 1 && g[lo].len() == 0 {
        assert(t[0] == g@[lo as int]@);
        assert(g@[lo as int]@ =~= Seq::<char>::empty());
        assert(t =~= seq![Seq::<char>::empty()]);
    } else {
        proof {
            if t == seq![Seq::<char>::empty()] {
                assert(t[0] == g@[lo as int]@);
            }
            lemma_count_values(t, limit);
        }
        push_values(&g, lo, n, &mut tail);
    }
    assert(tail@ == tail_values(t));
    assert(tail@.len() <= 7 - j);
    let zeros: usize = 8 - j - tail.len();
    let mut z: usize = 0;
    while z < zeros
        invariant
            z <= zeros,
            out@ == head + Seq::new(z as nat, |i: int| 0u16),
        decreases zeros - z,
    {
        out.push(0);
        z = z + 1;
        assert(out@ =~= head + Seq::new(z as nat, |i: int| 0u16));
    }
    let mut i: usize = 0;
    let ghost mid = out@;
    while i < tail.len()
        invariant
            i <= tail@.len(),
            out@ == mid + tail@.take(i as int),
        decreases tail@.len() - i,
    {
        out.push(tail[i]);
        i = i + 1;
        assert(out@ =~= mid + tail@.take(i as int));
    }
    assert(tail@.take(tail@.len() as int) =~= tail@);
    assert(out@ =~= ipv6_segments(s@));
    out
}


fn hex_digit_text(d: u16) -> (r: &'static str)
    requires
        d < 16,
    ensures
        r@ == seq![hex_char(d as nat)],
{
    if d < 10 {
        return digit_text(d);
    }
    proof {
        reveal_strlit("a");
        reveal_strlit("b");
        reveal_strlit("c");
        reveal_strlit("d");
        reveal_strlit("e");
        reveal_strlit("f");
    }
    if d == 10 { "a" }
    else if d == 11 { "b" }
    else if d == 12 { "c" }
    else if d == 13 { "d" }
    else if d == 14 { "e" }
    else { "f" }
}

/// Lowercase hexadecimal notation of a group.
fn hex_group_text(n: u16) -> (r: String)
    ensures
        r@ == hex_text(n as nat),
    decreases n,
{
    if n < 16 {
        String::from_str(hex_digit_text(n))
    } else {
        let mut r = hex_group_text(n / 16);
        r.append(hex_digit_text(n % 16));
        r
    }
}

/// The groups `segs[lo..hi]` in hexadecimal, joined by `:`.
fn joined_text(segs: &Vec<u16>, lo: usize, hi: usize) -> (r: String)
    requires
        lo <= hi <= segs@.len(),
    ensures
        r@ == joined(segs@.subrange(lo as int, hi as int)),
{
    let mut r = String::new();
    let mut k = lo;
    assert(segs@.subrange(lo as int, lo as int) =~= Seq::<u16>::empty());
    while k < hi
        invariant
            lo <= k <= hi <= segs@.len(),
            r@ == joined(segs@.subrange(lo as int, k as int)),
        decreases hi - k,
    {
        let ghost sub = segs@.subrange(lo as int, k + 1);
        assert(sub.drop_last() =~= segs@.subrange(lo as int, k as int));
        assert(sub.last() == segs@[k as int]);
        let h = hex_group_text(segs[k]);
        if k > lo {
            r.append(":");
        } else {
            assert(sub.len() == 1);
        }
        r.append(h.as_str());
        proof {
            reveal_strlit(":");
        }
        assert(r@ =~= joined(sub));
        k = k + 1;
    }
    r
}

/// The first longest run of zero groups, as `zero_runs` finds it.
fn longest_zero_run(segs: &Vec<u16>) -> (r: (usize, usize))
    ensures
        r.0 as int == zero_runs(segs@).0,
        r.1 as int == zero_runs(segs@).1,
        r.0 + r.1 <= segs@.len(),
{
    let n = segs.len();
    let mut bs: usize = 0;
    let mut bl: usize = 0;
    let mut cs: usize = 0;
    let mut cl: usize = 0;
    let mut i: usize = 0;
    assert(segs@.take(0) =~= Seq::<u16>::empty());
    while i < n
        invariant
            n == segs@.len(),
            i <= n,
            (bs as int, bl as int, cs as int, cl as int) == zero_runs(segs@.take(i as int)),
            bs + bl <= i,
            cs + cl == i || cl == 0,
            cl == 0 ==> cs == 0,
        decreases n - i,
    {
        proof {
            assert(segs@.take(i + 1).drop_last() =~= segs@.take(i as int));
            assert(segs@.take(i + 1).last() == segs@[i as int]);
        }
        if segs[i] == 0 {
            if cl == 0 {
                cs = i;
            }
            cl = cl + 1;
            if cl > bl {
                bs = cs;
                bl = cl;
            }
        } else {
            cs = 0;
            cl = 0;
        }
        i = i + 1;
    }
    assert(segs@.take(n as int) =~= segs@);
    (bs, bl)
}

/// The canonical text of eight IPv6 groups.
fn ipv6_segments_text(segs: &Vec<u16>) -> (r: String)
    requires
        segs@.len() == 8,
    ensures
        r@ == ipv6_text(segs@),
{
    proof {
        reveal_strlit("::ffff:");
        reveal_strlit(".");
        reveal_strlit("::");
    }
    if segs[0] == 0 && segs[1] == 0 && segs[2] == 0 && segs[3] == 0 && segs[4] == 0 && segs[5]
        == 0xffff {
        let mut r = String::from_str("::ffff:");
        let a = decimal_text(segs[6] / 256);
        let b = decimal_text(segs[6] % 256);
        let c = decimal_text(segs[7] / 256);
        let d = decimal_text(segs[7] % 256);
        r.append(a.as_str());
        r.append(".");
        r.append(b.as_str());
        r.append(".");
        r.append(c.as_str());
        r.append(".");
        r.append(d.as_str());
        return r;
    }
    assert(!is_mapped(segs@));
    assert(segs@.subrange(0, 8) =~= segs@);
    let (start, len) = longest_zero_run(segs);
    if len > 1 {
        let mut r = joined_text(segs, 0, start);
        r.append("::");
        let t = joined_text(segs, start + len, 8);
        r.append(t.as_str());
        assert(r@ =~= ipv6_text(segs@));
        r
    } else {
        joined_text(segs, 0, 8)
    }
}

/// The canonical text of an address literal: a dotted quad as it stands; an
/// IPv6 address in lowercase, without leading zeros in a group, its first
/// longest run of two or more zero groups written as `::`, and a mapped IPv4
/// address as `::ffff:a.b.c.d`.
pub fn canonical_ip_text(s: &str) -> (r: String)
    requires
        is_ip(s@),
    ensures
        r@ == canonical_ip(s@),
{
    reveal(canonical_ip);
    if crate::address::is_ipv4_literal(s) {
        return String::from_str(s);
    }
    let v = crate::address::chars_of(s);
    let segs = segments_of(&v);
    ipv6_segments_text(&segs)
}

} // verus!
