use vstd::prelude::*;
use vstd::string::*;
use vstd::utf8::{decode_utf8, valid_utf8};

verus! {

/// `String::from_utf8`: the bytes as a string when they are valid UTF-8.
#[verifier::external_body]
pub(crate) fn string_from_utf8(bytes: Vec<u8>) -> (r: Option<String>)
    ensures
        (match r {
            Some(s) => valid_utf8(bytes@) && s@ == decode_utf8(bytes@),
            None => !valid_utf8(bytes@),
        }),
{
    match String::from_utf8(bytes) {
        Ok(s) => Some(s),
        Err(_) => None,
    }
}

/// Number of occurrences of `c` in `s`.
pub open spec fn count_char(s: Seq<char>, c: char) -> nat
    decreases s.len(),
{
    if s.len() == 0 {
        0
    } else {
        count_char(s.drop_last(), c) + if s.last() == c { 1nat } else { 0nat }
    }
}

/// `p` is the first piece of `s` split at `c`: the longest prefix of `s`
/// in which `c` does not occur.
pub open spec fn is_first_piece(p: Seq<char>, s: Seq<char>, c: char) -> bool {
    &&& p.len() <= s.len()
    &&& p == s.take(p.len() as int)
    &&& !p.contains(c)
    &&& p.len() < s.len() ==> s[p.len() as int] == c
}

/// `p` is the second piece of `s` split at `c`: what stands between the
/// first and the second occurrence of `c` (or the end of `s`).
pub open spec fn is_second_piece(p: Seq<char>, s: Seq<char>, c: char) -> bool {
    exists|k: int|
        #![trigger s.skip(k + 1)]
        0 <= k < s.len() && s[k] == c && !s.take(k).contains(c) && is_first_piece(
            p,
            s.skip(k + 1),
            c,
        )
}

/// Index of the first `c` in `s` at or after `from`, or the length of `s`.
fn find_char(s: &str, c: char, from: usize) -> (k: usize)
    requires
        from <= s@.len(),
    ensures
        from <= k <= s@.len(),
        forall|j: int| from <= j < k ==> s@[j] != c,
        k < s@.len() ==> s@[k as int] == c,
{
    let n = s.unicode_len();
    let mut k = from;
    while k < n
        invariant
            n == s@.len(),
            from <= k <= n,
            forall|j: int| from <= j < k ==> s@[j] != c,
        decreases n - k,
    {
        if s.get_char(k) == c {
            return k;
        }
        k = k + 1;
    }
    k
}

proof fn lemma_count_take(s: Seq<char>, c: char, i: int)
    requires
        0 <= i < s.len(),
    ensures
        count_char(s.take(i + 1), c) == count_char(s.take(i), c) + if s[i] == c { 1nat } else { 0nat },
{
    assert(s.take(i + 1).drop_last() =~= s.take(i));
}

/// Whether `addr` has the form `host:port`: split at `:` it gives exactly
/// two pieces, that is, it holds exactly one `:`.
pub fn check_addr(addr: &String) -> (ok: bool)
    ensures
        ok == (count_char(addr@, ':') == 1),
{
    let s = addr.as_str();
    let n = s.unicode_len();
    let mut count: usize = 0;
    let mut i: usize = 0;
    while i < n
        invariant
            n == s@.len(),
            s@ == addr@,
            i <= n,
            count == count_char(s@.take(i as int), ':'),
            count <= i,
        decreases n - i,
    {
        proof {
            lemma_count_take(s@, ':', i as int);
        }
        if s.get_char(i) == ':' {
            count = count + 1;
        }
        i = i + 1;
    }
    assert(s@.take(n as int) =~= s@);
    count == 1
}

/// The part of `ip` before its first `:` (all of `ip` if it has none).
pub fn no_port(ip: &String) -> (host: String)
    ensures
        is_first_piece(host@, ip@, ':'),
{
    let s = ip.as_str();
    let k = find_char(s, ':', 0);
    let p = s.substring_char(0, k);
    let host = p.to_owned();
    proof {
        assert(host@ =~= ip@.take(k as int));
        assert forall|j: int| 0 <= j < host@.len() implies host@[j] != ':' by {
            assert(host@[j] == ip@[j]);
        }
    }
    host
}

/// The host part of a peer address of the form `scheme:host:port`: the
/// second piece of `peer` split at `:`. A peer without any `:` has no
/// second piece and is a caller's error.
pub fn get_peer_host(peer: &String) -> (host: String)
    requires
        peer@.contains(':'),
    ensures
        is_second_piece(host@, peer@, ':'),
{
    let s = peer.as_str();
    let n = s.unicode_len();
    let k = find_char(s, ':', 0);
    assert(k < n) by {
        let w = choose|w: int| 0 <= w < peer@.len() && peer@[w] == ':';
        assert(w >= k);
    }
    let e = find_char(s, ':', k + 1);
    let p = s.substring_char(k + 1, e);
    let host = p.to_owned();
    proof {
        let rest = peer@.skip(k + 1);
        assert(host@ =~= rest.take(host@.len() as int));
        assert forall|j: int| 0 <= j < host@.len() implies host@[j] != ':' by {
            assert(host@[j] == peer@[k + 1 + j]);
        }
        assert forall|j: int| 0 <= j < (k as int) implies peer@.take(k as int)[j] != ':' by {}
        assert(is_first_piece(host@, rest, ':'));
    }
    host
}

} // verus!

verus! {

/// The character of the decimal digit `d`.
pub open spec fn digit_char(d: nat) -> char {
    if d == 0 {
        '0'
    } else if d == 1 {
        '1'
    } else if d == 2 {
        '2'
    } else if d == 3 {
        '3'
    } else if d == 4 {
        '4'
    } else if d == 5 {
        '5'
    } else if d == 6 {
        '6'
    } else if d == 7 {
        '7'
    } else if d == 8 {
        '8'
    } else {
        '9'
    }
}

/// `n` written in decimal digits, without leading zeros.
pub open spec fn decimal(n: nat) -> Seq<char>
    decreases n,
{
    if n < 10 {
        seq![digit_char(n)]
    } else {
        decimal(n / 10).push(digit_char(n % 10))
    }
}

/// `host:port`, the address a node with that host and port is reached at.
pub open spec fn address(host: Seq<char>, port: u16) -> Seq<char> {
    host + seq![':'] + decimal(port as nat)
}

/// The one-character string of the decimal digit `d`.
fn digit_str(d: u64) -> (s: &'static str)
    requires
        d < 10,
    ensures
        s@ == seq![digit_char(d as nat)],
{
    proof {
        reveal_strlit("0");
        reveal_strlit("1");
        reveal_strlit("2");
        reveal_strlit("3");
        reveal_strlit("4");
        reveal_strlit("5");
        reveal_strlit("6");
        reveal_strlit("7");
        reveal_strlit("8");
        reveal_strlit("9");
    }
    if d == 0 {
        "0"
    } else if d == 1 {
        "1"
    } else if d == 2 {
        "2"
    } else if d == 3 {
        "3"
    } else if d == 4 {
        "4"
    } else if d == 5 {
        "5"
    } else if d == 6 {
        "6"
    } else if d == 7 {
        "7"
    } else if d == 8 {
        "8"
    } else {
        "9"
    }
}

/// `n` written in decimal digits.
pub fn decimal_string(n: u64) -> (s: String)
    ensures
        s@ == decimal(n as nat),
    decreases n,
{
    if n < 10 {
        String::from_str(digit_str(n))
    } else {
        let high = decimal_string(n / 10);
        let s = high.concat(digit_str(n % 10));
        proof {
            assert(s@ =~= decimal((n / 10) as nat).push(digit_char((n % 10) as nat)));
        }
        s
    }
}

/// `host:port`.
pub fn format_address(host: &String, port: u16) -> (addr: String)
    ensures
        addr@ == address(host@, port),
{
    let colon = ":";
    proof {
        reveal_strlit(":");
    }
    let port_digits = decimal_string(port as u64);
    let addr = host.clone().concat(colon).concat(port_digits.as_str());
    proof {
        assert(addr@ =~= address(host@, port));
    }
    addr
}

} // verus!

verus! {

proof fn lemma_digit_char_injective(a: nat, b: nat)
    requires
        a < 10,
        b < 10,
        digit_char(a) == digit_char(b),
    ensures
        a == b,
{
}

/// A number written in decimal has at least one digit, and exactly one
/// when it is below ten.
pub proof fn lemma_decimal_len(n: nat)
    ensures
        decimal(n).len() >= 1,
        (decimal(n).len() == 1) == (n < 10),
    decreases n,
{
    if n >= 10 {
        lemma_decimal_len(n / 10);
    }
}

/// Two numbers with the same decimal digits are equal.
pub proof fn lemma_decimal_injective(a: nat, b: nat)
    requires
        decimal(a) == decimal(b),
    ensures
        a == b,
    decreases a,
{
    lemma_decimal_len(a);
    lemma_decimal_len(b);
    if a < 10 {
        assert(b < 10);
        assert(decimal(a)[0] == digit_char(a));
        assert(decimal(b)[0] == digit_char(b));
        lemma_digit_char_injective(a, b);
    } else {
        assert(decimal(a).last() == digit_char(a % 10));
        assert(decimal(b).last() == digit_char(b % 10));
        lemma_digit_char_injective(a % 10, b % 10);
        assert(decimal(a).drop_last() == decimal(a / 10));
        assert(decimal(b).drop_last() == decimal(b / 10));
        lemma_decimal_injective(a / 10, b / 10);
    }
}

} // verus!
