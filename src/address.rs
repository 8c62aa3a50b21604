//! Syntax of the address and port literals that a page lists.
use vstd::prelude::*;

verus! {

/// An ASCII decimal digit.
pub open spec fn is_digit(c: char) -> bool {
    '0' <= c && c <= '9'
}

/// The value of a decimal digit.
pub open spec fn digit_value(c: char) -> nat {
    (c as u32 - '0' as u32) as nat
}

/// Every character of `s` is a decimal digit.
pub open spec fn all_digits(s: Seq<char>) -> bool {
    forall|i: int| 0 <= i < s.len() ==> is_digit(#[trigger] s[i])
}

/// The value of a run of decimal digits, most significant first.
pub open spec fn digits_value(s: Seq<char>) -> nat
    decreases s.len(),
{
    if s.len() == 0 {
        0
    } else {
        digits_value(s.drop_last()) * 10 + digit_value(s.last())
    }
}

/// One group of a dotted quad: one to three digits, no leading zero, at most 255.
pub open spec fn is_octet(s: Seq<char>) -> bool {
    &&& 1 <= s.len() <= 3
    &&& all_digits(s)
    &&& s.len() > 1 ==> s[0] != '0'
    &&& digits_value(s) <= 255
}

/// The pieces of `s` between occurrences of `sep`; there is always at least one.
pub open spec fn fields(s: Seq<char>, sep: char) -> Seq<Seq<char>>
    decreases s.len(),
{
    if s.len() == 0 {
        seq![Seq::empty()]
    } else {
        let rest = fields(s.drop_last(), sep);
        if s.last() == sep {
            rest.push(Seq::empty())
        } else {
            rest.update(rest.len() - 1, rest.last().push(s.last()))
        }
    }
}

/// An IPv4 address literal in dotted-quad notation.
pub open spec fn is_ipv4(s: Seq<char>) -> bool {
    let g = fields(s, '.');
    g.len() == 4 && forall|i: int| 0 <= i < 4 ==> is_octet(#[trigger] g[i])
}

/// The port that `s` denotes: an optional `+` and then decimal digits whose
/// value is at most 65535.
pub open spec fn port_value(s: Seq<char>) -> Option<u16> {
    let d = if s.len() > 0 && s[0] == '+' { s.drop_first() } else { s };
    if d.len() > 0 && all_digits(d) && digits_value(d) <= 65535 {
        Some(digits_value(d) as u16)
    } else {
        None
    }
}

/// The decimal digit of value `d`, for `d < 10`.
pub open spec fn digit_char(d: nat) -> char {
    if d == 0 { '0' }
    else if d == 1 { '1' }
    else if d == 2 { '2' }
    else if d == 3 { '3' }
    else if d == 4 { '4' }
    else if d == 5 { '5' }
    else if d == 6 { '6' }
    else if d == 7 { '7' }
    else if d == 8 { '8' }
    else { '9' }
}

/// An ASCII hexadecimal digit, in either case.
pub open spec fn is_hex_digit(c: char) -> bool {
    ('0' <= c && c <= '9') || ('a' <= c && c <= 'f') || ('A' <= c && c <= 'F')
}

/// One group of an IPv6 address: one to four hexadecimal digits.
pub open spec fn is_hex_group(s: Seq<char>) -> bool {
    1 <= s.len() <= 4 && forall|i: int| 0 <= i < s.len() ==> is_hex_digit(#[trigger] s[i])
}

/// The number of 16-bit groups that the `:`-separated pieces `fs` stand for,
/// when they are well formed within `limit` groups: hexadecimal groups, the
/// last of which may instead be a dotted quad, which stands for two groups.
pub open spec fn groups_count(fs: Seq<Seq<char>>, limit: nat) -> Option<nat> {
    if fs.len() == 0 {
        Some(0)
    } else if forall|i: int| 0 <= i < fs.len() - 1 ==> is_hex_group(#[trigger] fs[i]) {
        if is_hex_group(fs.last()) && fs.len() <= limit {
            Some(fs.len())
        } else if is_ipv4(fs.last()) && fs.len() + 1 <= limit {
            Some(fs.len() + 1)
        } else {
            None
        }
    } else {
        None
    }
}

/// The pieces after a `::`: nothing at all, or groups within `limit`.
pub open spec fn tail_ok(t: Seq<Seq<char>>, limit: nat) -> bool {
    t.len() >= 1 && (t == seq![Seq::<char>::empty()] || groups_count(t, limit) is Some)
}

/// The pieces `g` of an address with a `::`, whose first empty piece is
/// `g[j]`: hexadecimal groups before it, at most seven groups in all, and at
/// least one group of zeros left to the `::`.
pub open spec fn compressed_ok(g: Seq<Seq<char>>, j: int) -> bool {
    if j == 0 {
        g.len() >= 2 && g[1].len() == 0 && tail_ok(g.subrange(2, g.len() as int), 7)
    } else {
        &&& j <= 7
        &&& forall|k: int| 0 <= k < j ==> is_hex_group(#[trigger] g[k])
        &&& tail_ok(g.subrange(j + 1, g.len() as int), (7 - j) as nat)
    }
}

/// An IPv6 address literal: eight groups, or fewer with one `::`, the last
/// two groups possibly written as a dotted quad.
pub open spec fn is_ipv6(s: Seq<char>) -> bool {
    let g = fields(s, ':');
    ||| (forall|k: int| 0 <= k < g.len() ==> #[trigger] g[k].len() > 0) && groups_count(g, 8)
        == Some(8nat)
    ||| exists|j: int|
        0 <= j < g.len() && g[j].len() == 0 && (forall|k: int|
            0 <= k < j ==> #[trigger] g[k].len() > 0) && compressed_ok(g, j)
}

/// An IPv4 or IPv6 address literal.
pub open spec fn is_ip(s: Seq<char>) -> bool {
    is_ipv4(s) || is_ipv6(s)
}

/// The characters of each vector of `fs`.
pub open spec fn char_views(fs: Seq<Vec<char>>) -> Seq<Seq<char>> {
    fs.map_values(|v: Vec<char>| v@)
}

/// The decimal notation of `n`, without leading zeros.
pub open spec fn decimal(n: nat) -> Seq<char>
    decreases n,
{
    if n < 10 {
        seq![digit_char(n)]
    } else {
        decimal(n / 10).push(digit_char(n % 10))
    }
}

proof fn lemma_digit_char(d: nat)
    requires
        d < 10,
    ensures
        is_digit(digit_char(d)),
        digit_value(digit_char(d)) == d,
{
}

proof fn lemma_decimal_digits(n: nat)
    ensures
        decimal(n).len() > 0,
        all_digits(decimal(n)),
        digits_value(decimal(n)) == n,
        decimal(n)[0] != '+',
    decreases n,
{
    if n < 10 {
        lemma_digit_char(n);
        assert(decimal(n).drop_last() =~= Seq::<char>::empty());
        assert(digits_value(Seq::<char>::empty()) == 0);
        assert(decimal(n).last() == digit_char(n));
    } else {
        lemma_digit_char(n % 10);
        lemma_decimal_digits(n / 10);
        let x = decimal(n / 10);
        assert(decimal(n).drop_last() =~= x);
        assert(decimal(n).last() == digit_char(n % 10));
        assert(digits_value(decimal(n)) == digits_value(x) * 10 + digit_value(digit_char(n % 10)));
        assert(n == (n / 10) * 10 + n % 10);
        assert(decimal(n)[0] == x[0]);
        assert forall|i: int| 0 <= i < decimal(n).len() implies is_digit(#[trigger] decimal(n)[i]) by {
            if i < x.len() {
                assert(decimal(n)[i] == x[i]);
            }
        }
    }
}

/// The decimal text of a port reads back as that port.
pub proof fn lemma_port_round_trip(p: u16)
    ensures
        port_value(decimal(p as nat)) == Some(p),
{
    lemma_decimal_digits(p as nat);
}

proof fn lemma_fields_step(s: Seq<char>, i: int, sep: char)
    requires
        0 <= i < s.len(),
    ensures
        ({
            let g = fields(s.take(i), sep);
            let h = fields(s.take(i + 1), sep);
            if s[i] == sep {
                h == g.push(Seq::empty())
            } else {
                h == g.update(g.len() - 1, g.last().push(s[i]))
            }
        }),
{
    assert(s.take(i + 1).drop_last() =~= s.take(i));
}

/// Whether `v` is one group of a dotted quad.
fn octet_ok(v: &Vec<char>) -> (r: bool)
    ensures
        r == is_octet(v@),
{
    let n = v.len();
    if n < 1 || n > 3 {
        return false;
    }
    if n > 1 && v[0] == '0' {
        return false;
    }
    let mut val: u32 = 0;
    let mut k: usize = 0;
    while k < n
        invariant
            n == v@.len(),
            n <= 3,
            k <= n,
            all_digits(v@.take(k as int)),
            val as nat == digits_value(v@.take(k as int)),
            (k == 0 && val == 0) || (k == 1 && val < 10) || (k == 2 && val < 100) || (k == 3
                && val < 1000),
        decreases n - k,
    {
        let c = v[k];
        if !('0' <= c && c <= '9') {
            assert(!is_digit(v@[k as int]));
            return false;
        }
        proof {
            assert(v@.take(k + 1).drop_last() =~= v@.take(k as int));
            assert(v@.take(k + 1).last() == c);
        }
        val = val * 10 + (c as u32 - '0' as u32);
        k = k + 1;
    }
    assert(v@.take(n as int) =~= v@);
    val <= 255
}


fn ipv4_chars(s: &Vec<char>) -> (r: bool)
    ensures
        r == is_ipv4(s@),
{
    let n = s.len();
    let mut done: usize = 0;
    let mut ok = true;
    let mut cur: Vec<char> = Vec::new();
    let mut i: usize = 0;
    proof {
        assert(s@.take(0) =~= Seq::<char>::empty());
    }
    while i < n
        invariant
            n == s@.len(),
            i <= n,
            done <= i,
            fields(s@.take(i as int), '.').len() == done + 1,
            cur@ == fields(s@.take(i as int), '.').last(),
            ok == forall|j: int| 0 <= j < done ==> is_octet(#[trigger] fields(s@.take(i as int), '.')[j]),
        decreases n - i,
    {
        let c = s[i];
        proof {
            lemma_fields_step(s@, i as int, '.');
        }
        let ghost g = fields(s@.take(i as int), '.');
        if c == '.' {
            let last_ok = octet_ok(&cur);
            ok = ok && last_ok;
            cur = Vec::new();
            done = done + 1;
            proof {
                let h = fields(s@.take(i + 1), '.');
                assert(cur@ =~= h.last());
                assert forall|j: int| 0 <= j < done implies #[trigger] h[j] == (if j < done - 1 { g[j] } else { g.last() }) by {}
                if ok {
                    assert forall|j: int| 0 <= j < done implies is_octet(#[trigger] h[j]) by {
                        if j < done - 1 {
                            assert(h[j] == g[j]);
                        }
                    }
                } else {
                    if !last_ok {
                        assert(h[done - 1] == g.last());
                    } else {
                        let j = choose|j: int| 0 <= j < done - 1 && !is_octet(#[trigger] g[j]);
                        assert(h[j] == g[j]);
                    }
                }
                assert(ok == forall|j: int| 0 <= j < done ==> is_octet(#[trigger] h[j]));
            }
        } else {
            cur.push(c);
            proof {
                let h = fields(s@.take(i + 1), '.');
                assert(cur@ =~= h.last());
                assert forall|j: int| 0 <= j < done implies #[trigger] h[j] == g[j] by {}
                if !ok {
                    let j = choose|j: int| 0 <= j < done && !is_octet(#[trigger] g[j]);
                    assert(h[j] == g[j]);
                }
                assert(ok == forall|j: int| 0 <= j < done ==> is_octet(#[trigger] h[j]));
            }
        }
        i = i + 1;
    }
    assert(s@.take(n as int) =~= s@);
    let last_ok = octet_ok(&cur);
    proof {
        let g = fields(s@, '.');
        if ok && done == 3 && last_ok {
            assert forall|j: int| 0 <= j < 4 implies is_octet(#[trigger] g[j]) by {
                if j == 3 {
                    assert(g[j] == g.last());
                }
            }
        }
        if is_ipv4(s@) {
            assert(is_octet(g[3]));
            assert forall|j: int| 0 <= j < done implies is_octet(#[trigger] g[j]) by {}
        }
    }
    ok && done == 3 && last_ok
}

proof fn lemma_saturated_step(v: nat, d: nat)
    requires
        d < 10,
    ensures
        (if v * 10 + d > 65536 { 65536 } else { v * 10 + d }) == ({
            let w = if v > 65536 { 65536nat } else { v };
            if w * 10 + d > 65536 { 65536nat } else { w * 10 + d }
        }),
{
    if v > 65536 {
        assert(v * 10 + d > 65536) by (nonlinear_arith)
            requires
                v > 65536,
        ;
        assert(65536nat * 10 + d > 65536);
    }
}

/// Reads a port number: an optional `+` and then decimal digits, of value at
/// most 65535.
pub fn parse_port(s: &str) -> (r: Option<u16>)
    ensures
        r == port_value(s@),
{
    let n = s.unicode_len();
    let mut start: usize = 0;
    if n > 0 && s.get_char(0) == '+' {
        start = 1;
    }
    if start == n {
        return None;
    }
    let ghost d = if s@.len() > 0 && s@[0] == '+' { s@.drop_first() } else { s@ };
    assert(d =~= s@.subrange(start as int, n as int));
    let mut val: u32 = 0;
    let mut i: usize = start;
    while i < n
        invariant
            n == s@.len(),
            start <= i <= n,
            d == s@.subrange(start as int, n as int),
            port_value(s@) == (if all_digits(d) && digits_value(d) <= 65535 {
                Some(digits_value(d) as u16)
            } else {
                None
            }),
            all_digits(d.take(i - start)),
            val as nat == (if digits_value(d.take(i - start)) > 65536 { 65536 } else {
                digits_value(d.take(i - start))
            }),
        decreases n - i,
    {
        let c = s.get_char(i);
        if !('0' <= c && c <= '9') {
            assert(!is_digit(d[i - start]));
            assert(!all_digits(d));
            return None;
        }
        proof {
            let k = i - start;
            assert(d.take(k + 1).drop_last() =~= d.take(k));
            assert(d.take(k + 1).last() == c);
            lemma_saturated_step(digits_value(d.take(k)), digit_value(c));
        }
        val = val * 10 + (c as u32 - '0' as u32);
        if val > 65536 {
            val = 65536;
        }
        i = i + 1;
    }
    assert(d.take(n - start) =~= d);
    if val > 65535 {
        None
    } else {
        Some(val as u16)
    }
}

pub(crate) fn digit_text(d: u16) -> (r: &'static str)
    requires
        d < 10,
    ensures
        r@ == seq![digit_char(d as nat)],
{
    proof {
        reveal_strlit("0");
        reveal_strlit("1");
        reveal_strlit("2");
        reveal_strlit("3");
        reveal_strlit("4");
        reveal_strlit("5");
        reveal_strlit("6");
        reveal_strlit("7");
        reveal_strlit("8");
        reveal_strlit("9");
    }
    if d == 0 { "0" }
    else if d == 1 { "1" }
    else if d == 2 { "2" }
    else if d == 3 { "3" }
    else if d == 4 { "4" }
    else if d == 5 { "5" }
    else if d == 6 { "6" }
    else if d == 7 { "7" }
    else if d == 8 { "8" }
    else { "9" }
}

/// The decimal notation of a port number.
pub fn decimal_text(n: u16) -> (r: String)
    ensures
        r@ == decimal(n as nat),
    decreases n,
{
    if n < 10 {
        String::from_str(digit_text(n))
    } else {
        let mut r = decimal_text(n / 10);
        r.append(digit_text(n % 10));
        r
    }
}


/// The characters of `s`.
pub(crate) fn chars_of(s: &str) -> (r: Vec<char>)
    ensures
        r@ == s@,
{
    let n = s.unicode_len();
    let mut r: Vec<char> = Vec::new();
    let mut i: usize = 0;
    while i < n
        invariant
            n == s@.len(),
            i <= n,
            r@ == s@.take(i as int),
        decreases n - i,
    {
        r.push(s.get_char(i));
        i = i + 1;
        assert(r@ =~= s@.take(i as int));
    }
    assert(s@.take(n as int) =~= s@);
    r
}

/// Whether `s` is an IPv4 address literal in dotted-quad notation.
pub fn is_ipv4_literal(s: &str) -> (r: bool)
    ensures
        r == is_ipv4(s@),
{
    let v = chars_of(s);
    ipv4_chars(&v)
}


pub(crate) fn split_fields(s: &Vec<char>, sep: char) -> (r: Vec<Vec<char>>)
    ensures
        char_views(r@) == fields(s@, sep),
{
    let n = s.len();
    let mut done: Vec<Vec<char>> = Vec::new();
    let mut cur: Vec<char> = Vec::new();
    let mut i: usize = 0;
    assert(s@.take(0) =~= Seq::<char>::empty());
    assert(char_views(done@).push(cur@) =~= fields(s@.take(0), sep));
    while i < n
        invariant
            n == s@.len(),
            i <= n,
            char_views(done@).push(cur@) == fields(s@.take(i as int), sep),
        decreases n - i,
    {
        let c = s[i];
        proof {
            lemma_fields_step(s@, i as int, sep);
        }
        if c == sep {
            let ghost before = char_views(done@).push(cur@);
            done.push(cur);
            cur = Vec::new();
            assert(char_views(done@) =~= before);
        } else {
            let ghost before = char_views(done@).push(cur@);
            cur.push(c);
            assert(char_views(done@).push(cur@) =~= before.update(before.len() - 1, before.last().push(c)));
        }
        i = i + 1;
    }
    assert(s@.take(n as int) =~= s@);
    let ghost before = char_views(done@).push(cur@);
    done.push(cur);
    assert(char_views(done@) =~= before);
    done
}

pub(crate) fn hex_group_ok(v: &Vec<char>) -> (r: bool)
    ensures
        r == is_hex_group(v@),
{
    let n = v.len();
    if n < 1 || n > 4 {
        return false;
    }
    let mut k: usize = 0;
    while k < n
        invariant
            n == v@.len(),
            k <= n,
            forall|i: int| 0 <= i < k ==> is_hex_digit(#[trigger] v@[i]),
        decreases n - k,
    {
        let c = v[k];
        if !(('0' <= c && c <= '9') || ('a' <= c && c <= 'f') || ('A' <= c && c <= 'F')) {
            assert(!is_hex_digit(v@[k as int]));
            return false;
        }
        k = k + 1;
    }
    true
}

/// `groups_count` of the pieces of `fs` from `lo` on.
fn count_groups(fs: &Vec<Vec<char>>, lo: usize, limit: usize) -> (r: Option<usize>)
    requires
        lo <= fs@.len(),
    ensures
        r is Some == groups_count(char_views(fs@).subrange(lo as int, fs@.len() as int), limit as nat) is Some,
        r is Some ==> r->0 as nat == groups_count(
            char_views(fs@).subrange(lo as int, fs@.len() as int),
            limit as nat,
        )->0,
{
    let ghost t = char_views(fs@).subrange(lo as int, fs@.len() as int);
    let n = fs.len();
    if lo == n {
        return Some(0);
    }
    let mut k = lo;
    while k + 1 < n
        invariant
            n == fs@.len(),
            lo <= k < n,
            t == char_views(fs@).subrange(lo as int, n as int),
            forall|i: int| 0 <= i < k - lo ==> is_hex_group(#[trigger] t[i]),
        decreases n - k,
    {
        if !hex_group_ok(&fs[k]) {
            assert(!is_hex_group(t[k - lo]));
            return None;
        }
        k = k + 1;
    }
    let cnt = n - lo;
    assert(t.last() == fs@[n - 1]@);
    if hex_group_ok(&fs[n - 1]) && cnt <= limit {
        Some(cnt)
    } else if ipv4_chars(&fs[n - 1]) && cnt < limit {
        Some(cnt + 1)
    } else {
        None
    }
}

/// `tail_ok` of the pieces of `fs` from `lo` on.
fn tail_check(fs: &Vec<Vec<char>>, lo: usize, limit: usize) -> (r: bool)
    requires
        lo <= fs@.len(),
    ensures
        r == tail_ok(char_views(fs@).subrange(lo as int, fs@.len() as int), limit as nat),
{
    let n = fs.len();
    if lo >= n {
        return false;
    }
    let ghost t = char_views(fs@).subrange(lo as int, n as int);
    if n - lo == 1 && fs[lo].len() == 0 {
        assert(t[0] == fs@[lo as int]@);
        assert(fs@[lo as int]@ =~= Seq::<char>::empty());
        assert(t =~= seq![Seq::<char>::empty()]);
        return true;
    }
    proof {
        if t == seq![Seq::<char>::empty()] {
            assert(t[0] == fs@[lo as int]@);
        }
    }
    count_groups(fs, lo, limit).is_some()
}

fn ipv6_chars(s: &Vec<char>) -> (r: bool)
    ensures
        r == is_ipv6(s@),
{
    let g = split_fields(s, ':');
    let ghost gv = char_views(g@);
    let n = g.len();
    let mut j: usize = 0;
    while j < n && g[j].len() > 0
        invariant
            n == g@.len(),
            j <= n,
            gv == char_views(g@),
            forall|k: int| 0 <= k < j ==> #[trigger] gv[k].len() > 0,
        decreases n - j,
    {
        j = j + 1;
    }
    assert(gv =~= gv.subrange(0, n as int));
    if j == n {
        let c = count_groups(&g, 0, 8);
        return match c {
            Some(k) => k == 8,
            None => false,
        };
    }
    assert(gv[j as int].len() == 0);
    let ok = if j == 0 {
        if n < 2 || g[1].len() != 0 {
            false
        } else {
            tail_check(&g, 2, 7)
        }
    } else if j > 7 {
        false
    } else {
        let mut k: usize = 0;
        let mut heads = true;
        while k < j
            invariant
                n == g@.len(),
                k <= j < n,
                gv == char_views(g@),
                heads == forall|i: int| 0 <= i < k ==> is_hex_group(#[trigger] gv[i]),
            decreases j - k,
        {
            let h = hex_group_ok(&g[k]);
            proof {
                if heads && !h {
                    assert(!is_hex_group(gv[k as int]));
                }
                if !heads {
                    let i = choose|i: int| 0 <= i < k && !is_hex_group(#[trigger] gv[i]);
                    assert(!is_hex_group(gv[i]));
                }
            }
            heads = heads && h;
            k = k + 1;
        }
        heads && tail_check(&g, j + 1, 7 - j)
    };
    proof {
        assert(ok == compressed_ok(gv, j as int));
        if !ok {
            if exists|j2: int|
                0 <= j2 < gv.len() && gv[j2].len() == 0 && (forall|k: int|
                    0 <= k < j2 ==> #[trigger] gv[k].len() > 0) && compressed_ok(gv, j2) {
                let j2 = choose|j2: int|
                    0 <= j2 < gv.len() && gv[j2].len() == 0 && (forall|k: int|
                        0 <= k < j2 ==> #[trigger] gv[k].len() > 0) && compressed_ok(gv, j2);
                if j2 < j {
                    assert(gv[j2].len() > 0);
                } else if j2 > j {
                    assert(gv[j as int].len() > 0);
                }
            }
        }
    }
    ok
}

/// Whether `s` is an IPv6 address literal.
pub fn is_ipv6_literal(s: &str) -> (r: bool)
    ensures
        r == is_ipv6(s@),
{
    let v = chars_of(s);
    ipv6_chars(&v)
}

/// Whether `s` is an IPv4 or an IPv6 address literal.
pub fn is_ip_literal(s: &str) -> (r: bool)
    ensures
        r == is_ip(s@),
{
    let v = chars_of(s);
    ipv4_chars(&v) || ipv6_chars(&v)
}

} // verus!
